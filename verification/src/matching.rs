//! Heavy edge matching: pairing each vertex with the neighbor at the end of
//! its heaviest edge.

use crate::topology::{in_range, no_positive_loops, Adjacency, Graph};
use crate::total::{
    lemma_total_exchange, lemma_total_ext, lemma_total_mono, lemma_total_plus, lemma_total_point,
    total,
};
use crate::uncoarsen::{groups, last_holder, named};
use vstd::prelude::*;

verus! {

/// Some group holds vertex `v`.
pub open spec fn covered(sets: Seq<Seq<usize>>, v: usize) -> bool {
    exists|c: int| 0 <= c < sets.len() && (#[trigger] sets[c]).contains(v)
}

/// The weight of the entry at a place of a list; no place has weight zero.
pub open spec fn heft(row: Seq<(usize, i64)>, place: Option<int>) -> int {
    match place {
        Some(i) => row[i].1 as int,
        None => 0,
    }
}

/// The place, among the first `k` entries of a list, of the first of the
/// heaviest entries that lead to a vertex without a group. Only positive
/// weights count.
pub open spec fn partner(row: Seq<(usize, i64)>, sets: Seq<Seq<usize>>, k: int) -> Option<int>
    decreases k,
{
    if k <= 0 {
        None
    } else {
        let best = partner(row, sets, k - 1);
        if row[k - 1].1 > heft(row, best) && !covered(sets, row[k - 1].0) {
            Some(k - 1)
        } else {
            best
        }
    }
}

/// The group of two vertices, or of one twice, the smaller first.
pub open spec fn pair(v: usize, u: usize) -> Seq<usize> {
    if v <= u {
        seq![v, u]
    } else {
        seq![u, v]
    }
}

/// The group that vertex `v` founds: with its partner if it has one, and
/// otherwise alone.
pub open spec fn founded(row: Seq<(usize, i64)>, sets: Seq<Seq<usize>>, v: usize) -> Seq<usize> {
    match partner(row, sets, row.len() as int) {
        Some(i) => pair(v, row[i].0),
        None => seq![v],
    }
}

/// The groups after the first `k` vertices of an order have been visited: each
/// vertex that is not in a group yet founds one.
pub open spec fn matching(rows: Adjacency, order: Seq<usize>, k: int) -> Seq<Seq<usize>>
    decreases k,
{
    if k <= 0 {
        Seq::empty()
    } else {
        let before = matching(rows, order, k - 1);
        let v = order[k - 1];
        if covered(before, v) {
            before
        } else {
            before.push(founded(rows[v as int], before, v))
        }
    }
}

/// The partner leads to a vertex without a group by a positive weight, no
/// entry that leads to such a vertex is heavier, and each such entry before it
/// is lighter. There is no partner only if no such entry has a positive
/// weight.
pub proof fn law_partner_is_heaviest(row: Seq<(usize, i64)>, sets: Seq<Seq<usize>>, k: int)
    requires
        0 <= k <= row.len(),
    ensures
        partner(row, sets, k) matches Some(i) ==> 0 <= i < k && row[i].1 > 0 && !covered(
            sets,
            row[i].0,
        ) && (forall|j: int|
            0 <= j < i && !covered(sets, (#[trigger] row[j]).0) ==> row[j].1 < row[i].1),
        forall|j: int|
            0 <= j < k && !covered(sets, (#[trigger] row[j]).0) ==> row[j].1 <= heft(
                row,
                partner(row, sets, k),
            ),
    decreases k,
{
    if k > 0 {
        law_partner_is_heaviest(row, sets, k - 1);
    }
}

/// The groups hold vertices below `n`, each in at most one group, and each
/// group holds one vertex or two.
pub open spec fn grouping(sets: Seq<Seq<usize>>, n: int) -> bool {
    &&& forall|c: int, v: usize| 0 <= c < sets.len() && #[trigger] sets[c].contains(v) ==> v < n
    &&& forall|c: int, d: int, v: usize|
        0 <= c < sets.len() && 0 <= d < sets.len() && #[trigger] sets[c].contains(v)
            && #[trigger] sets[d].contains(v) ==> c == d
    &&& forall|c: int| 0 <= c < sets.len() ==> 1 <= (#[trigger] sets[c]).len() <= 2
}

/// No group holds a vertex twice.
pub open spec fn proper(sets: Seq<Seq<usize>>) -> bool {
    forall|c: int| 0 <= c < sets.len() ==> (#[trigger] sets[c]).no_duplicates()
}

proof fn lemma_founded(row: Seq<(usize, i64)>, sets: Seq<Seq<usize>>, v: usize)
    ensures
        founded(row, sets, v).contains(v),
        1 <= founded(row, sets, v).len() <= 2,
        forall|u: usize|
            founded(row, sets, v).contains(u) && u != v ==> exists|i: int|
                0 <= i < row.len() && (#[trigger] row[i]).0 == u && !covered(sets, u),
        (forall|i: int| 0 <= i < row.len() && (#[trigger] row[i]).0 == v ==> row[i].1 <= 0)
            ==> founded(row, sets, v).no_duplicates(),
{
    law_partner_is_heaviest(row, sets, row.len() as int);
    let group = founded(row, sets, v);
    match partner(row, sets, row.len() as int) {
        Some(i) => {
            if v <= row[i].0 {
                assert(group[0] == v);
            } else {
                assert(group[1] == v);
            }
            assert forall|u: usize| group.contains(u) && u != v implies exists|j: int|
                0 <= j < row.len() && (#[trigger] row[j]).0 == u && !covered(sets, u) by {
                assert(row[i].0 == u);
            }
        },
        None => {
            assert(group[0] == v);
        },
    }
}

/// Matching makes groups of one or two vertices, and no vertex is in two
/// groups.
pub proof fn law_matching_groups(rows: Adjacency, order: Seq<usize>, k: int)
    requires
        in_range(rows),
        0 <= k <= order.len(),
        forall|i: int| 0 <= i < order.len() ==> #[trigger] order[i] < rows.len(),
    ensures
        grouping(matching(rows, order, k), rows.len() as int),
        forall|i: int| 0 <= i < k ==> covered(matching(rows, order, k), #[trigger] order[i]),
        matching(rows, order, k).len() <= k,
    decreases k,
{
    if k > 0 {
        law_matching_groups(rows, order, k - 1);
        let before = matching(rows, order, k - 1);
        let after = matching(rows, order, k);
        let v = order[k - 1];
        assert(order[k - 1] < rows.len());
        if !covered(before, v) {
            let group = founded(rows[v as int], before, v);
            lemma_founded(rows[v as int], before, v);
            assert(after == before.push(group));
            assert forall|u: usize| group.contains(u) implies u < rows.len() && !covered(
                before,
                u,
            ) by {
                if u != v {
                    let i = choose|i: int|
                        0 <= i < rows[v as int].len() && (#[trigger] rows[v as int][i]).0 == u
                            && !covered(before, u);
                    assert(rows[v as int][i].0 < rows.len());
                }
            }
            assert forall|c: int, u: usize|
                0 <= c < after.len() && #[trigger] after[c].contains(u) implies u
                < rows.len() by {
                if c < before.len() {
                    assert(before[c].contains(u));
                }
            }
            assert forall|c: int, d: int, u: usize|
                0 <= c < after.len() && 0 <= d < after.len() && #[trigger] after[c].contains(u)
                    && #[trigger] after[d].contains(u) implies c == d by {
                if c < before.len() {
                    assert(before[c].contains(u));
                }
                if d < before.len() {
                    assert(before[d].contains(u));
                }
            }
            assert forall|c: int| 0 <= c < after.len() implies 1 <= (#[trigger] after[c]).len()
                <= 2 by {
                if c < before.len() {
                    assert(after[c] == before[c]);
                }
            }
        }
        assert forall|i: int| 0 <= i < k implies covered(after, #[trigger] order[i]) by {
            if i < k - 1 {
                assert(covered(before, order[i]));
                let c = choose|c: int|
                    0 <= c < before.len() && (#[trigger] before[c]).contains(order[i]);
                assert(after[c].contains(order[i]));
            } else if !covered(before, v) {
                lemma_founded(rows[v as int], before, v);
                assert(after[after.len() - 1].contains(v));
            }
        }
    }
}

/// In a graph without loops of positive weight no group holds a vertex twice.
pub proof fn law_matching_is_proper(rows: Adjacency, order: Seq<usize>, k: int)
    requires
        no_positive_loops(rows),
        0 <= k <= order.len(),
        forall|i: int| 0 <= i < order.len() ==> #[trigger] order[i] < rows.len(),
    ensures
        proper(matching(rows, order, k)),
    decreases k,
{
    if k > 0 {
        law_matching_is_proper(rows, order, k - 1);
        let before = matching(rows, order, k - 1);
        let after = matching(rows, order, k);
        let v = order[k - 1];
        assert(order[k - 1] < rows.len());
        if !covered(before, v) {
            lemma_founded(rows[v as int], before, v);
            assert forall|i: int|
                0 <= i < rows[v as int].len() && (#[trigger] rows[v as int][i]).0 == v implies rows[
            v as int][i].1 <= 0 by {}
            assert forall|c: int| 0 <= c < after.len() implies (
            #[trigger] after[c]).no_duplicates() by {
                if c < before.len() {
                    assert(after[c] == before[c]);
                }
            }
        }
    }
}

/// The vertex is the only one of the group that holds it.
pub proof fn lemma_last_holder(sets: Seq<Seq<usize>>, n: int, c: int, v: usize, k: int)
    requires
        grouping(sets, n),
        0 <= c < k <= sets.len(),
        sets[c].contains(v),
    ensures
        last_holder(sets, v, k) == c,
    decreases k,
{
    if c < k - 1 {
        assert(!sets[k - 1].contains(v)) by {
            if sets[k - 1].contains(v) {
                assert(c == k - 1);
            }
        }
        lemma_last_holder(sets, n, c, v, k - 1);
    }
}

spec fn member_term(sets: Seq<Seq<usize>>, c: int) -> spec_fn(int) -> int {
    |v: int|
        if sets[c].contains(v as usize) {
            1
        } else {
            0
        }
}

proof fn lemma_group_size(sets: Seq<Seq<usize>>, n: int, c: int)
    requires
        grouping(sets, n),
        0 <= c < sets.len(),
        n <= usize::MAX,
    ensures
        total(n, member_term(sets, c)) <= sets[c].len(),
        sets[c].no_duplicates() ==> total(n, member_term(sets, c)) == sets[c].len(),
{
    let f = member_term(sets, c);
    let group = sets[c];
    let a = group[0];
    assert(group.contains(a));
    if group.len() == 1 || group[0] == group[1] {
        assert forall|v: int| 0 <= v < n && v != a implies #[trigger] f(v) == 0 by {
            if group.contains(v as usize) {
                assert(group[0] == v || group[1] == v);
            }
        }
        lemma_total_point(n, a as int, f);
    } else {
        let b = group[1];
        assert(group.contains(b));
        let g = |v: int|
            if v == a {
                1int
            } else {
                0
            };
        let h = |v: int|
            if v == b {
                1int
            } else {
                0
            };
        lemma_total_point(n, a as int, g);
        lemma_total_point(n, b as int, h);
        assert forall|v: int| 0 <= v < n implies #[trigger] f(v) == g(v) + h(v) by {
            if group.contains(v as usize) {
                assert(group[0] == v || group[1] == v);
            }
        }
        lemma_total_plus(n, g, h, f);
    }
}

/// Groups that hold every vertex name at least as many vertices as there are,
/// and exactly as many if no group holds a vertex twice.
pub proof fn lemma_all_named(sets: Seq<Seq<usize>>, n: int)
    requires
        grouping(sets, n),
        0 <= n <= usize::MAX,
        forall|v: usize| v < n ==> #[trigger] covered(sets, v),
    ensures
        n <= named(sets, sets.len() as int) <= 2 * sets.len(),
        proper(sets) ==> named(sets, sets.len() as int) == n,
{
    let m = sets.len() as int;
    let cell = |c: int, v: int| member_term(sets, c)(v);
    lemma_total_exchange(m, n, cell);
    let by_group = |c: int| total(n, |v: int| cell(c, v));
    let by_vertex = |v: int| total(m, |c: int| cell(c, v));
    let size = |c: int| sets[c].len() as int;
    assert forall|c: int| 0 <= c < m implies #[trigger] by_group(c) <= size(c) && (proper(sets)
        ==> by_group(c) == size(c)) by {
        lemma_total_ext(n, |v: int| cell(c, v), member_term(sets, c));
        lemma_group_size(sets, n, c);
    }
    lemma_total_mono(m, by_group, size);
    if proper(sets) {
        lemma_total_ext(m, by_group, size);
    }
    let one = |v: int| 1int;
    assert forall|v: int| 0 <= v < n implies #[trigger] by_vertex(v) == one(v) by {
        assert(covered(sets, v as usize));
        let c = choose|c: int| 0 <= c < sets.len() && (#[trigger] sets[c]).contains(v as usize);
        lemma_total_point(m, c, |d: int| cell(d, v));
    }
    lemma_total_ext(n, by_vertex, one);
    lemma_ones(n);
    let two = |c: int| 2int;
    assert forall|c: int| 0 <= c < m implies #[trigger] size(c) <= two(c) by {
        assert(sets[c].len() <= 2);
    }
    lemma_total_mono(m, size, two);
    lemma_ones(m);
    lemma_total_plus(m, |c: int| 1int, |c: int| 1int, two);
    assert(named(sets, m) == total(m, size));
}

/// As many ones add up to a number.
pub proof fn lemma_ones(n: int)
    requires
        n >= 0,
    ensures
        total(n, |v: int| 1int) == n,
    decreases n,
{
    if n > 0 {
        lemma_ones(n - 1);
    }
}

/// `home` gives for each vertex the group that holds it, if one does.
pub open spec fn homes(sets: Seq<Seq<usize>>, home: Seq<Option<usize>>) -> bool {
    &&& forall|v: int|
        0 <= v < home.len() ==> (#[trigger] home[v] matches Some(c) ==> c < sets.len()
            && sets[c as int].contains(v as usize))
    &&& forall|c: int, v: usize|
        0 <= c < sets.len() && #[trigger] sets[c].contains(v) ==> v < home.len() && home[v as int]
            == Some(c as usize)
}

/// Finds the partner for a vertex with a given list.
fn find_partner(row: &Vec<(usize, i64)>, home: &Vec<Option<usize>>, sets: Ghost<
    Seq<Seq<usize>>,
>) -> (best: Option<usize>)
    requires
        homes(sets@, home@),
        sets@.len() <= usize::MAX,
        forall|k: int| 0 <= k < row@.len() ==> (#[trigger] row@[k]).0 < home@.len(),
    ensures
        match best {
            Some(i) => partner(row@, sets@, row@.len() as int) == Some(i as int) && i < row@.len(),
            None => partner(row@, sets@, row@.len() as int) is None,
        },
{
    let mut weight: i64 = 0;
    let mut best: Option<usize> = None;
    let mut k: usize = 0;
    while k < row.len()
        invariant
            k <= row@.len(),
            homes(sets@, home@),
            forall|j: int| 0 <= j < row@.len() ==> (#[trigger] row@[j]).0 < home@.len(),
            weight == heft(row@, partner(row@, sets@, k as int)),
            match best {
                Some(i) => partner(row@, sets@, k as int) == Some(i as int) && i < k,
                None => partner(row@, sets@, k as int) is None,
            },
        decreases row@.len() - k,
    {
        let (u, w) = row[k];
        assert(row@[k as int].0 < home@.len());
        proof {
            assert(home@[u as int] is None <==> !covered(sets@, u)) by {
                if let Some(c) = home@[u as int] {
                    assert(sets@[c as int].contains(u));
                }
                if covered(sets@, u) {
                    let c = choose|c: int|
                        0 <= c < sets@.len() && (#[trigger] sets@[c]).contains(u);
                    assert(home@[u as int] == Some(c as usize));
                }
            }
        }
        if w > weight && home[u].is_none() {
            weight = w;
            best = Some(k);
        }
        k += 1;
    }
    best
}

/// Groups the vertices of a graph by heavy edge matching, visiting them in a
/// given order. Returns the groups, and for each vertex the group that holds
/// it.
pub fn match_vertices(graph: &Graph, order: &[usize]) -> (result: (Vec<Vec<usize>>, Vec<
    Option<usize>,
>))
    requires
        forall|i: int| 0 <= i < order@.len() ==> #[trigger] order@[i] < graph@.len(),
    ensures
        groups(result.0@) == matching(graph@, order@, order@.len() as int),
        result.1@.len() == graph@.len(),
        homes(groups(result.0@), result.1@),
{
    let ghost rows = graph@;
    let n: usize = graph.len();
    let mut mapping: Vec<Vec<usize>> = Vec::new();
    let mut home: Vec<Option<usize>> = Vec::new();
    while home.len() < n
        invariant
            home@.len() <= n,
            forall|v: int| 0 <= v < home@.len() ==> (#[trigger] home@[v]) is None,
        decreases n - home@.len(),
    {
        home.push(None);
    }
    assert(groups(mapping@) == Seq::<Seq<usize>>::empty());
    let mut i: usize = 0;
    while i < order.len()
        invariant
            rows == graph@,
            in_range(rows),
            n == rows.len(),
            i <= order@.len(),
            forall|j: int| 0 <= j < order@.len() ==> #[trigger] order@[j] < rows.len(),
            home@.len() == rows.len(),
            groups(mapping@) == matching(rows, order@, i as int),
            homes(groups(mapping@), home@),
        decreases order@.len() - i,
    {
        let v: usize = order[i];
        assert(order@[i as int] < rows.len());
        let ghost sets = groups(mapping@);
        proof {
            if let Some(c) = home@[v as int] {
                assert(sets[c as int].contains(v));
            }
            if covered(sets, v) {
                let c = choose|c: int| 0 <= c < sets.len() && (#[trigger] sets[c]).contains(v);
                assert(home@[v as int] == Some(c as usize));
            }
        }
        if home[v].is_none() {
            let row: &Vec<(usize, i64)> = graph.neighbors(v);
            assert forall|k: int| 0 <= k < row@.len() implies (#[trigger] row@[k]).0
                < home@.len() by {
                assert(rows[v as int][k].0 < rows.len());
            }
            assert(sets.len() == mapping.len());
            let c: usize = mapping.len();
            let ghost before = home@;
            let mut group: Vec<usize> = Vec::new();
            match find_partner(row, &home, Ghost(sets)) {
                Some(k) => {
                    let u: usize = row[k].0;
                    assert(row@[k as int].0 < home@.len());
                    if v <= u {
                        group.push(v);
                        group.push(u);
                    } else {
                        group.push(u);
                        group.push(v);
                    }
                    home.set(v, Some(c));
                    home.set(u, Some(c));
                    proof {
                        law_partner_is_heaviest(row@, sets, row@.len() as int);
                        assert(group@ =~= pair(v, u));
                        assert(group@ == founded(rows[v as int], sets, v));
                        if v <= u {
                            assert(group@[0] == v && group@[1] == u);
                        } else {
                            assert(group@[0] == u && group@[1] == v);
                        }
                        assert(group@.contains(v) && group@.contains(u));
                        assert forall|x: usize| group@.contains(x) implies x == v || x == u by {}
                        lemma_homes_grow(sets, before, home@, group@, c);
                    }
                },
                None => {
                    group.push(v);
                    home.set(v, Some(c));
                    proof {
                        assert(group@ =~= seq![v]);
                        assert(group@[0] == v);
                        assert(group@.contains(v));
                        lemma_homes_grow(sets, before, home@, group@, c);
                    }
                },
            }
            mapping.push(group);
            assert(groups(mapping@) =~= sets.push(group@));
        }
        i += 1;
    }
    (mapping, home)
}

proof fn lemma_homes_grow(
    sets: Seq<Seq<usize>>,
    before: Seq<Option<usize>>,
    after: Seq<Option<usize>>,
    group: Seq<usize>,
    c: usize,
)
    requires
        homes(sets, before),
        c == sets.len(),
        before.len() == after.len(),
        before.len() <= usize::MAX,
        forall|v: usize| #[trigger]
            group.contains(v) ==> v < before.len() && before[v as int] is None,
        forall|v: int|
            0 <= v < after.len() ==> #[trigger] after[v] == if group.contains(v as usize) {
                Some(c)
            } else {
                before[v]
            },
    ensures
        homes(sets.push(group), after),
{
    let more = sets.push(group);
    assert forall|v: int| 0 <= v < after.len() implies (#[trigger] after[v] matches Some(d) ==> d
        < more.len() && more[d as int].contains(v as usize)) by {
        if let Some(d) = after[v] {
            if group.contains(v as usize) {
                assert(more[c as int] == group);
            } else {
                assert(before[v] == Some(d));
                assert(more[d as int] == sets[d as int]);
            }
        }
    }
    assert forall|d: int, v: usize|
        0 <= d < more.len() && #[trigger] more[d].contains(v) implies v < after.len()
        && after[v as int] == Some(d as usize) by {
        if d < sets.len() {
            assert(sets[d].contains(v));
            assert(before[v as int] == Some(d as usize));
            assert(!group.contains(v));
        } else {
            assert(group.contains(v));
        }
    }
}

} // verus!
