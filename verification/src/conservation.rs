//! What becomes of the weights of the parts when a partition is carried over
//! from a coarse graph to the finer one.

use crate::coarsen::{coarsens, holder, lemma_matching_complete, visits_all};
use crate::double::{unsigned_value, Double};
use crate::matching::{law_matching_is_proper, lemma_all_named, lemma_last_holder, proper};
use crate::matrix::SparseMatrix;
use crate::projection::{law_uncoarse_follows_groups, lemma_holder, partitions_vertices};
use crate::topology::{in_range, no_positive_loops, Adjacency};
use crate::total::{
    lemma_total_exchange, lemma_total_ext, lemma_total_magnitude, lemma_total_mono,
    lemma_total_nonneg, lemma_total_plus, lemma_total_point, lemma_total_zero, magnitude, total,
};
use crate::uncoarsen::{named, uncoarse};
use crate::weights::{running, sums_to, weights_in, weights_of};
use vstd::arithmetic::div_mod::lemma_add_mod_noop;
use vstd::prelude::*;

verus! {

/// The weights of the vertices behind those of the first `n` coarse vertices
/// that are in a part, group by group.
pub open spec fn group_weights_in(
    id: usize,
    part: Seq<usize>,
    sets: Seq<Seq<usize>>,
    weights: Seq<Double>,
    n: int,
) -> Seq<Double>
    decreases n,
{
    if n <= 0 {
        Seq::empty()
    } else if part[n - 1] == id {
        group_weights_in(id, part, sets, weights, n - 1) + weights_of(sets[n - 1], weights)
    } else {
        group_weights_in(id, part, sets, weights, n - 1)
    }
}

/// What a list of numbers amounts to if each counts as `g` says.
pub open spec fn amount(terms: Seq<Double>, g: spec_fn(Double) -> int) -> int {
    total(terms.len() as int, |k: int| g(terms[k]))
}

proof fn lemma_amount_push(terms: Seq<Double>, x: Double, g: spec_fn(Double) -> int)
    ensures
        amount(terms.push(x), g) == amount(terms, g) + g(x),
{
    let longer = terms.push(x);
    lemma_total_ext(terms.len() as int, |k: int| g(terms[k]), |k: int| g(longer[k]));
}

proof fn lemma_amount_joined(first: Seq<Double>, second: Seq<Double>, g: spec_fn(Double) -> int)
    ensures
        amount(first + second, g) == amount(first, g) + amount(second, g),
    decreases second.len(),
{
    if second.len() == 0 {
        assert(first + second == first);
    } else {
        let fewer = second.drop_last();
        lemma_amount_joined(first, fewer, g);
        lemma_amount_push(first + fewer, second.last(), g);
        lemma_amount_push(fewer, second.last(), g);
        assert(first + second == (first + fewer).push(second.last()));
        assert(second == fewer.push(second.last()));
    }
}

/// Counts one for a given number and nothing for the others.
spec fn one_for(x: Double) -> spec_fn(Double) -> int {
    |y: Double|
        if y == x {
            1
        } else {
            0
        }
}

proof fn lemma_count_is_amount(terms: Seq<Double>, x: Double)
    ensures
        terms.to_multiset().count(x) == amount(terms, one_for(x)),
    decreases terms.len(),
{
    broadcast use vstd::seq_lib::group_to_multiset_ensures;

    let g = one_for(x);
    if terms.len() == 0 {
        assert(terms.to_multiset().len() == 0);
        assert(!terms.contains(x));
    } else {
        let fewer = terms.drop_last();
        lemma_count_is_amount(fewer, x);
        lemma_amount_push(fewer, terms.last(), g);
        assert(terms == fewer.push(terms.last()));
    }
}

/// What `f` gives for the members of group `c`, added up.
spec fn group_total(sets: Seq<Seq<usize>>, f: spec_fn(int) -> int, c: int) -> int {
    total(sets[c].len() as int, |i: int| f(sets[c][i] as int))
}

proof fn lemma_group_total(sets: Seq<Seq<usize>>, n: nat, f: spec_fn(int) -> int, c: int)
    requires
        partitions_vertices(sets, n),
        proper(sets),
        0 <= c < sets.len(),
    ensures
        total(
            n as int,
            |v: int|
                if sets[c].contains(v as usize) {
                    f(v)
                } else {
                    0
                },
        ) == group_total(sets, f, c),
{
    let group = sets[c];
    let held = |v: int|
        if group.contains(v as usize) {
            f(v)
        } else {
            0
        };
    let by_place = |i: int| f(group[i] as int);
    let a = group[0] as int;
    assert(group.contains(group[0]));
    if group.len() == 1 {
        lemma_total_point(n as int, a, held);
        lemma_total_point(1, 0, by_place);
    } else {
        let b = group[1] as int;
        assert(group.contains(group[1]));
        assert(group[0] != group[1]);
        let at_a = |v: int|
            if v == a {
                f(v)
            } else {
                0
            };
        let at_b = |v: int|
            if v == b {
                f(v)
            } else {
                0
            };
        lemma_total_point(n as int, a, at_a);
        lemma_total_point(n as int, b, at_b);
        assert forall|v: int| 0 <= v < n implies #[trigger] held(v) == at_a(v) + at_b(v) by {
            if group.contains(v as usize) {
                let i = choose|i: int| 0 <= i < group.len() && group[i] == v as usize;
                assert(i == 0 || i == 1);
            }
        }
        lemma_total_plus(n as int, at_a, at_b, held);
        assert(total(2, by_place) == total(1, by_place) + by_place(1));
        assert(total(1, by_place) == total(0, by_place) + by_place(0));
    }
}

proof fn lemma_total_by_group(sets: Seq<Seq<usize>>, n: nat, f: spec_fn(int) -> int)
    requires
        partitions_vertices(sets, n),
        proper(sets),
    ensures
        total(n as int, f) == total(sets.len() as int, |c: int| group_total(sets, f, c)),
{
    let m = sets.len() as int;
    let cell = |c: int, v: int|
        if sets[c].contains(v as usize) {
            f(v)
        } else {
            0
        };
    lemma_total_exchange(m, n as int, cell);
    let by_group = |c: int| total(n as int, |v: int| cell(c, v));
    let by_vertex = |v: int| total(m, |c: int| cell(c, v));
    let grouped = |c: int| group_total(sets, f, c);
    assert forall|c: int| 0 <= c < m implies #[trigger] by_group(c) == grouped(c) by {
        lemma_group_total(sets, n, f, c);
        lemma_total_ext(
            n as int,
            |v: int| cell(c, v),
            |v: int|
                if sets[c].contains(v as usize) {
                    f(v)
                } else {
                    0
                },
        );
    }
    lemma_total_ext(m, by_group, grouped);
    assert forall|v: int| 0 <= v < n implies #[trigger] by_vertex(v) == f(v) by {
        lemma_holder(sets, n, v);
        let c = holder(sets, v);
        let column = |d: int| cell(d, v);
        assert forall|d: int| 0 <= d < m && d != c implies #[trigger] column(d) == 0 by {
            if sets[d].contains(v as usize) {
                assert(sets[c].contains(v as usize));
            }
        }
        lemma_total_point(m, c, column);
    }
    lemma_total_ext(n as int, by_vertex, f);
}

/// What counts for a vertex: its weight if it is in the part.
spec fn part_term(
    id: usize,
    part: Seq<usize>,
    weights: Seq<Double>,
    g: spec_fn(Double) -> int,
) -> spec_fn(int) -> int {
    |v: int|
        if part[v] == id {
            g(weights[v])
        } else {
            0
        }
}

proof fn lemma_amount_of_part(
    id: usize,
    part: Seq<usize>,
    weights: Seq<Double>,
    g: spec_fn(Double) -> int,
    n: int,
)
    ensures
        amount(weights_in(id, part, weights, n), g) == total(n, part_term(id, part, weights, g)),
    decreases n,
{
    if n > 0 {
        lemma_amount_of_part(id, part, weights, g, n - 1);
        if part[n - 1] == id {
            lemma_amount_push(weights_in(id, part, weights, n - 1), weights[n - 1], g);
        }
    }
}

/// What counts for a coarse vertex: the weights in its group if it is in the
/// part.
spec fn groups_term(
    id: usize,
    part: Seq<usize>,
    sets: Seq<Seq<usize>>,
    weights: Seq<Double>,
    g: spec_fn(Double) -> int,
) -> spec_fn(int) -> int {
    |c: int|
        if part[c] == id {
            amount(weights_of(sets[c], weights), g)
        } else {
            0
        }
}

proof fn lemma_amount_of_groups(
    id: usize,
    part: Seq<usize>,
    sets: Seq<Seq<usize>>,
    weights: Seq<Double>,
    g: spec_fn(Double) -> int,
    n: int,
)
    ensures
        amount(group_weights_in(id, part, sets, weights, n), g) == total(
            n,
            groups_term(id, part, sets, weights, g),
        ),
    decreases n,
{
    if n > 0 {
        lemma_amount_of_groups(id, part, sets, weights, g, n - 1);
        if part[n - 1] == id {
            lemma_amount_joined(
                group_weights_in(id, part, sets, weights, n - 1),
                weights_of(sets[n - 1], weights),
                g,
            );
        }
    }
}

/// Whatever the weights count for, the vertices of a part of the fine
/// partition count as much as the groups of that part.
proof fn lemma_part_amounts(
    id: usize,
    part: Seq<usize>,
    sets: Seq<Seq<usize>>,
    weights: Seq<Double>,
    g: spec_fn(Double) -> int,
    n: nat,
)
    requires
        partitions_vertices(sets, n),
        proper(sets),
    ensures
        amount(weights_in(id, uncoarse(part, sets), weights, n as int), g) == total(
            sets.len() as int,
            groups_term(id, part, sets, weights, g),
        ),
{
    let fine = uncoarse(part, sets);
    let f = part_term(id, fine, weights, g);
    law_uncoarse_follows_groups(part, sets, n);
    lemma_amount_of_part(id, fine, weights, g, n as int);
    lemma_total_by_group(sets, n, f);
    let grouped = |c: int| group_total(sets, f, c);
    let by_part = groups_term(id, part, sets, weights, g);
    assert forall|c: int| 0 <= c < sets.len() implies #[trigger] grouped(c) == by_part(c) by {
        let group = sets[c];
        let terms = |i: int| f(group[i] as int);
        assert forall|i: int| 0 <= i < group.len() implies #[trigger] terms(i) == (if part[c]
            == id {
            g(weights[group[i] as int])
        } else {
            0
        }) by {
            let v = group[i];
            assert(group.contains(v));
            lemma_last_holder(sets, n as int, c, v, sets.len() as int);
            assert(fine[v as int] == part[c]);
        }
        if part[c] == id {
            let list = weights_of(group, weights);
            lemma_total_ext(group.len() as int, terms, |i: int| g(list[i]));
        } else {
            lemma_total_zero(group.len() as int, terms);
        }
    }
    lemma_total_ext(sets.len() as int, grouped, by_part);
}

proof fn lemma_matched<F: Fn(Double, Double) -> Double>(
    plus: F,
    rows: Adjacency,
    weights: Seq<Double>,
    order: Seq<usize>,
    m: SparseMatrix,
    sets: Seq<Seq<usize>>,
    coarse_weights: Seq<Double>,
)
    requires
        in_range(rows),
        no_positive_loops(rows),
        rows.len() <= usize::MAX,
        visits_all(order, rows.len()),
        coarsens(plus, rows, weights, order, m, sets, coarse_weights),
    ensures
        partitions_vertices(sets, rows.len()),
        proper(sets),
{
    lemma_matching_complete(rows, order);
    law_matching_is_proper(rows, order, order.len() as int);
}

/// Carrying a partition over to the finer graph keeps what is in each part: the
/// weights of the vertices of a part are, all told, the weights of the
/// vertices in the groups that the coarse partition puts there. This holds of
/// graphs without loops of positive weight.
pub proof fn law_uncoarse_keeps_part_contents<F: Fn(Double, Double) -> Double>(
    plus: F,
    rows: Adjacency,
    weights: Seq<Double>,
    order: Seq<usize>,
    m: SparseMatrix,
    sets: Seq<Seq<usize>>,
    coarse_weights: Seq<Double>,
    part: Seq<usize>,
    id: usize,
)
    requires
        in_range(rows),
        no_positive_loops(rows),
        rows.len() <= usize::MAX,
        visits_all(order, rows.len()),
        coarsens(plus, rows, weights, order, m, sets, coarse_weights),
    ensures
        weights_in(id, uncoarse(part, sets), weights, rows.len() as int).to_multiset()
            == group_weights_in(id, part, sets, weights, sets.len() as int).to_multiset(),
{
    lemma_matched(plus, rows, weights, order, m, sets, coarse_weights);
    let fine = weights_in(id, uncoarse(part, sets), weights, rows.len() as int);
    let coarse = group_weights_in(id, part, sets, weights, sets.len() as int);
    assert forall|x: Double| #[trigger] fine.to_multiset().count(x) == coarse.to_multiset().count(
        x,
    ) by {
        let g = one_for(x);
        lemma_count_is_amount(fine, x);
        lemma_count_is_amount(coarse, x);
        lemma_part_amounts(id, part, sets, weights, g, rows.len());
        lemma_amount_of_groups(id, part, sets, weights, g, sets.len() as int);
    }
    assert(fine.to_multiset() =~= coarse.to_multiset());
}

/// The number is a multiple of a unit, and not negative.
pub open spec fn whole(d: Double, unit: int) -> bool {
    d.value() >= 0 && d.value() % unit == 0
}

/// Adding multiples of a unit is exact as long as their sum stays within a
/// limit.
pub open spec fn adds_exactly<F: Fn(Double, Double) -> Double>(
    plus: F,
    unit: int,
    limit: int,
) -> bool {
    forall|a: Double, b: Double, c: Double|
        whole(a, unit) && whole(b, unit) && a.value() + b.value() <= limit
            && #[trigger] call_ensures(plus, (a, b), c) ==> c.value() == a.value() + b.value()
}

/// Counts each number for what it is.
pub open spec fn face_value() -> spec_fn(Double) -> int {
    |d: Double| d.value()
}

/// What a list of numbers is worth.
pub open spec fn worth(terms: Seq<Double>) -> int {
    amount(terms, face_value())
}

/// What each number of a list is worth.
spec fn each(weights: Seq<Double>) -> spec_fn(int) -> int {
    |v: int| weights[v].value()
}

proof fn lemma_worth_nonneg(terms: Seq<Double>, unit: int)
    requires
        forall|k: int| 0 <= k < terms.len() ==> whole(#[trigger] terms[k], unit),
    ensures
        worth(terms) >= 0,
{
    let g = face_value();
    let f = |k: int| g(terms[k]);
    assert forall|k: int| 0 <= k < terms.len() implies #[trigger] f(k) >= 0 by {
        assert(whole(terms[k], unit));
    }
    lemma_total_nonneg(terms.len() as int, f);
}

proof fn lemma_exact_sum<F: Fn(Double, Double) -> Double>(
    plus: F,
    unit: int,
    limit: int,
    terms: Seq<Double>,
    sums: Seq<Double>,
    k: int,
)
    requires
        unit > 0,
        adds_exactly(plus, unit, limit),
        running(plus, terms, sums),
        forall|i: int| 0 <= i < terms.len() ==> whole(#[trigger] terms[i], unit),
        worth(terms) <= limit,
        0 <= k <= terms.len(),
    ensures
        whole(sums[k], unit),
        sums[k].value() == worth(terms.take(k)),
        worth(terms.take(k)) <= worth(terms),
    decreases k,
{
    let g = face_value();
    let f = |i: int| g(terms[i]);
    let shorter = terms.take(k);
    assert forall|i: int| 0 <= i < terms.len() implies #[trigger] f(i) >= 0 by {
        assert(whole(terms[i], unit));
    }
    lemma_total_nonneg(terms.len() as int, f);
    lemma_total_ext(k, f, |i: int| g(shorter[i]));
    assert(worth(shorter) == total(k, f));
    assert(worth(terms) == total(terms.len() as int, f));
    if k == 0 {
        assert(unsigned_value(0) == 0);
        assert(sums[0].value() == 0);
        assert(0int % unit == 0) by {
            vstd::arithmetic::div_mod::lemma_small_mod(0, unit as nat);
        }
    } else {
        lemma_exact_sum(plus, unit, limit, terms, sums, k - 1);
        let fewer = terms.take(k - 1);
        lemma_total_ext(k - 1, f, |i: int| g(fewer[i]));
        assert(worth(fewer) == total(k - 1, f));
        let a = sums[k - 1];
        let b = terms[k - 1];
        assert(whole(b, unit));
        assert(call_ensures(plus, (a, b), sums[k]));
        lemma_add_mod_noop(a.value(), b.value(), unit);
    }
}

proof fn lemma_exact_total<F: Fn(Double, Double) -> Double>(
    plus: F,
    unit: int,
    limit: int,
    terms: Seq<Double>,
    sum: Double,
)
    requires
        unit > 0,
        adds_exactly(plus, unit, limit),
        sums_to(plus, terms, sum),
        forall|i: int| 0 <= i < terms.len() ==> whole(#[trigger] terms[i], unit),
        worth(terms) <= limit,
    ensures
        whole(sum, unit),
        sum.value() == worth(terms),
{
    let sums = choose|sums: Seq<Double>| #[trigger] running(plus, terms, sums) && sum
        == sums.last();
    lemma_exact_sum(plus, unit, limit, terms, sums, terms.len() as int);
    assert(terms.take(terms.len() as int) == terms);
}

proof fn lemma_weights_in_whole(
    id: usize,
    part: Seq<usize>,
    weights: Seq<Double>,
    unit: int,
    n: int,
)
    requires
        n <= weights.len(),
        forall|v: int| 0 <= v < weights.len() ==> whole(#[trigger] weights[v], unit),
    ensures
        forall|k: int|
            0 <= k < weights_in(id, part, weights, n).len() ==> whole(
                #[trigger] weights_in(id, part, weights, n)[k],
                unit,
            ),
    decreases n,
{
    if n > 0 {
        lemma_weights_in_whole(id, part, weights, unit, n - 1);
        let list = weights_in(id, part, weights, n);
        let before = weights_in(id, part, weights, n - 1);
        assert forall|k: int| 0 <= k < list.len() implies whole(#[trigger] list[k], unit) by {
            if k < before.len() {
                assert(list[k] == before[k]);
            } else {
                assert(list[k] == weights[n - 1]);
            }
        }
    }
}

/// The weight of a part is what the weights of its vertices add up to, wherever
/// the additions are exact.
pub proof fn law_part_weight_is_exact<F: Fn(Double, Double) -> Double>(
    plus: F,
    part: Seq<usize>,
    weights: Seq<Double>,
    id: usize,
    unit: int,
    limit: int,
    weight: Double,
)
    requires
        part.len() == weights.len(),
        unit > 0,
        adds_exactly(plus, unit, limit),
        forall|v: int| 0 <= v < weights.len() ==> whole(#[trigger] weights[v], unit),
        total(weights.len() as int, |v: int| weights[v].value()) <= limit,
        sums_to(plus, weights_in(id, part, weights, part.len() as int), weight),
    ensures
        weight.value() == total(
            part.len() as int,
            |v: int|
                if part[v] == id {
                    weights[v].value()
                } else {
                    0
                },
        ),
{
    let n = part.len() as int;
    let g = face_value();
    let own = |v: int|
        if part[v] == id {
            weights[v].value()
        } else {
            0
        };
    let all = |v: int| weights[v].value();
    lemma_weights_in_whole(id, part, weights, unit, n);
    lemma_amount_of_part(id, part, weights, g, n);
    lemma_total_ext(n, part_term(id, part, weights, g), own);
    assert forall|v: int| 0 <= v < n implies #[trigger] own(v) <= all(v) by {
        assert(whole(weights[v], unit));
    }
    lemma_total_mono(n, own, all);
    lemma_exact_total(plus, unit, limit, weights_in(id, part, weights, n), weight);
}

/// Carrying a partition over to the finer graph keeps the weight of each part,
/// wherever the additions are exact: the vertices of a part add up to as much
/// as the coarse vertices that the coarse partition puts there. This holds of
/// graphs without loops of positive weight.
pub proof fn law_uncoarse_keeps_part_weights<F: Fn(Double, Double) -> Double>(
    plus: F,
    rows: Adjacency,
    weights: Seq<Double>,
    order: Seq<usize>,
    m: SparseMatrix,
    sets: Seq<Seq<usize>>,
    coarse_weights: Seq<Double>,
    part: Seq<usize>,
    id: usize,
    unit: int,
    limit: int,
    fine_weight: Double,
    coarse_weight: Double,
)
    requires
        in_range(rows),
        no_positive_loops(rows),
        rows.len() <= usize::MAX,
        weights.len() == rows.len(),
        visits_all(order, rows.len()),
        coarsens(plus, rows, weights, order, m, sets, coarse_weights),
        unit > 0,
        adds_exactly(plus, unit, limit),
        forall|v: int| 0 <= v < weights.len() ==> whole(#[trigger] weights[v], unit),
        worth(weights) <= limit,
        sums_to(
            plus,
            weights_in(id, uncoarse(part, sets), weights, rows.len() as int),
            fine_weight,
        ),
        sums_to(plus, weights_in(id, part, coarse_weights, sets.len() as int), coarse_weight),
    ensures
        fine_weight.value() == coarse_weight.value(),
{
    lemma_matched(plus, rows, weights, order, m, sets, coarse_weights);
    let n = rows.len() as int;
    let k = sets.len() as int;
    let g = face_value();
    let fine = uncoarse(part, sets);
    let all = each(weights);
    lemma_total_ext(n, all, |v: int| g(weights[v]));
    assert(worth(weights) == total(n, all));
    assert forall|v: int| 0 <= v < n implies #[trigger] all(v) >= 0 by {
        assert(whole(weights[v], unit));
    }
    // The vertices of the part.
    let inside = part_term(id, fine, weights, g);
    lemma_weights_in_whole(id, fine, weights, unit, n);
    lemma_amount_of_part(id, fine, weights, g, n);
    assert forall|v: int| 0 <= v < n implies #[trigger] inside(v) <= all(v) by {
        assert(all(v) >= 0);
    }
    lemma_total_mono(n, inside, all);
    lemma_exact_total(plus, unit, limit, weights_in(id, fine, weights, n), fine_weight);
    // Each group.
    lemma_total_by_group(sets, rows.len(), all);
    let grouped = |c: int| group_total(sets, all, c);
    assert forall|c: int| 0 <= c < k implies #[trigger] grouped(c) >= 0 && whole(
        coarse_weights[c],
        unit,
    ) && coarse_weights[c].value() == grouped(c) && amount(weights_of(sets[c], weights), g)
        == grouped(c) by {
        lemma_group_worth(sets, rows.len(), weights, unit, c);
        lemma_group_share(sets, rows.len(), weights, unit, c);
        assert(sums_to(plus, weights_of(sets[c], weights), coarse_weights[c]));
        lemma_exact_total(plus, unit, limit, weights_of(sets[c], weights), coarse_weights[c]);
    }
    // The coarse vertices of the part.
    assert forall|c: int| 0 <= c < coarse_weights.len() implies whole(
        #[trigger] coarse_weights[c],
        unit,
    ) by {
        assert(grouped(c) >= 0);
    }
    let taken = part_term(id, part, coarse_weights, g);
    lemma_weights_in_whole(id, part, coarse_weights, unit, k);
    lemma_amount_of_part(id, part, coarse_weights, g, k);
    assert forall|c: int| 0 <= c < k implies #[trigger] taken(c) <= grouped(c) by {
        assert(grouped(c) >= 0);
    }
    lemma_total_mono(k, taken, grouped);
    lemma_exact_total(
        plus,
        unit,
        limit,
        weights_in(id, part, coarse_weights, k),
        coarse_weight,
    );
    // Both are the groups of the part, added up.
    lemma_part_amounts(id, part, sets, weights, g, rows.len());
    let by_part = groups_term(id, part, sets, weights, g);
    assert forall|c: int| 0 <= c < k implies #[trigger] taken(c) == by_part(c) by {
        assert(grouped(c) >= 0);
    }
    lemma_total_ext(k, taken, by_part);
}

proof fn lemma_group_worth(
    sets: Seq<Seq<usize>>,
    n: nat,
    weights: Seq<Double>,
    unit: int,
    c: int,
)
    requires
        partitions_vertices(sets, n),
        0 <= c < sets.len(),
        weights.len() == n,
        forall|v: int| 0 <= v < weights.len() ==> whole(#[trigger] weights[v], unit),
    ensures
        worth(weights_of(sets[c], weights)) == group_total(
            sets,
            each(weights),
            c,
        ),
        worth(weights_of(sets[c], weights)) >= 0,
        forall|i: int|
            0 <= i < weights_of(sets[c], weights).len() ==> whole(
                #[trigger] weights_of(sets[c], weights)[i],
                unit,
            ),
{
    let g = face_value();
    let all = each(weights);
    let group = sets[c];
    let list = weights_of(group, weights);
    lemma_total_ext(group.len() as int, |i: int| g(list[i]), |i: int| all(group[i] as int));
    assert forall|i: int| 0 <= i < list.len() implies whole(#[trigger] list[i], unit) by {
        assert(group.contains(group[i]));
        assert(whole(weights[group[i] as int], unit));
    }
    lemma_worth_nonneg(list, unit);
}

proof fn lemma_group_share(
    sets: Seq<Seq<usize>>,
    n: nat,
    weights: Seq<Double>,
    unit: int,
    c: int,
)
    requires
        partitions_vertices(sets, n),
        proper(sets),
        0 <= c < sets.len(),
        weights.len() == n,
        forall|v: int| 0 <= v < weights.len() ==> whole(#[trigger] weights[v], unit),
    ensures
        worth(weights_of(sets[c], weights)) <= worth(weights),
{
    let all = each(weights);
    let grouped = |d: int| group_total(sets, all, d);
    lemma_total_by_group(sets, n, all);
    assert forall|d: int| 0 <= d < sets.len() implies #[trigger] grouped(d) >= 0 by {
        lemma_group_worth(sets, n, weights, unit, d);
    }
    lemma_total_nonneg(sets.len() as int, grouped);
    lemma_group_worth(sets, n, weights, unit, c);
    assert(grouped(c) <= total(sets.len() as int, grouped));
    let g = face_value();
    lemma_total_ext(n as int, all, |v: int| g(weights[v]));
}

/// Adding numbers that are not negative is off by no more than a given error as
/// long as their sum stays within a limit, and does not turn negative.
pub open spec fn adds_nearly<F: Fn(Double, Double) -> Double>(
    plus: F,
    error: int,
    limit: int,
) -> bool {
    forall|a: Double, b: Double, c: Double|
        a.value() >= 0 && b.value() >= 0 && a.value() + b.value() <= limit
            && #[trigger] call_ensures(plus, (a, b), c) ==> c.value() >= 0 && magnitude(
            c.value() - (a.value() + b.value()),
        ) <= error
}

proof fn lemma_near_sum<F: Fn(Double, Double) -> Double>(
    plus: F,
    error: int,
    limit: int,
    terms: Seq<Double>,
    sums: Seq<Double>,
    k: int,
)
    requires
        error >= 0,
        adds_nearly(plus, error, limit),
        running(plus, terms, sums),
        forall|i: int| 0 <= i < terms.len() ==> (#[trigger] terms[i]).value() >= 0,
        worth(terms) + terms.len() * error <= limit,
        0 <= k <= terms.len(),
    ensures
        sums[k].value() >= 0,
        magnitude(sums[k].value() - worth(terms.take(k))) <= k * error,
    decreases k,
{
    let g = face_value();
    let f = |i: int| g(terms[i]);
    let shorter = terms.take(k);
    assert forall|i: int| 0 <= i < terms.len() implies #[trigger] f(i) >= 0 by {
        assert(terms[i].value() >= 0);
    }
    lemma_total_nonneg(terms.len() as int, f);
    lemma_total_ext(k, f, |i: int| g(shorter[i]));
    assert(worth(shorter) == total(k, f));
    assert(worth(terms) == total(terms.len() as int, f));
    if k == 0 {
        assert(unsigned_value(0) == 0);
        assert(sums[0].value() == 0);
        assert(0 * error == 0) by (nonlinear_arith);
    } else {
        lemma_near_sum(plus, error, limit, terms, sums, k - 1);
        let fewer = terms.take(k - 1);
        lemma_total_ext(k - 1, f, |i: int| g(fewer[i]));
        assert(worth(fewer) == total(k - 1, f));
        let a = sums[k - 1];
        let b = terms[k - 1];
        assert(b.value() >= 0);
        assert(f(k - 1) == b.value());
        assert(total(k, f) <= total(terms.len() as int, f));
        assert((k - 1) * error + error == k * error) by (nonlinear_arith);
        assert(k * error <= terms.len() * error) by (nonlinear_arith)
            requires
                k <= terms.len(),
                error >= 0,
        ;
        assert(a.value() + b.value() <= limit);
        assert(call_ensures(plus, (a, b), sums[k]));
    }
}

proof fn lemma_near_total<F: Fn(Double, Double) -> Double>(
    plus: F,
    error: int,
    limit: int,
    terms: Seq<Double>,
    sum: Double,
)
    requires
        error >= 0,
        adds_nearly(plus, error, limit),
        sums_to(plus, terms, sum),
        forall|i: int| 0 <= i < terms.len() ==> (#[trigger] terms[i]).value() >= 0,
        worth(terms) + terms.len() * error <= limit,
    ensures
        sum.value() >= 0,
        magnitude(sum.value() - worth(terms)) <= terms.len() * error,
{
    let sums = choose|sums: Seq<Double>| #[trigger] running(plus, terms, sums) && sum
        == sums.last();
    lemma_near_sum(plus, error, limit, terms, sums, terms.len() as int);
    assert(terms.take(terms.len() as int) == terms);
}

proof fn lemma_weights_in_len(id: usize, part: Seq<usize>, weights: Seq<Double>, n: int)
    requires
        0 <= n,
    ensures
        weights_in(id, part, weights, n).len() <= n,
    decreases n,
{
    if n > 0 {
        lemma_weights_in_len(id, part, weights, n - 1);
    }
}

/// The number of vertices in a group, times the error.
spec fn group_error(sets: Seq<Seq<usize>>, error: int) -> spec_fn(int) -> int {
    |c: int| sets[c].len() * error
}

proof fn lemma_group_errors(sets: Seq<Seq<usize>>, error: int, m: int)
    requires
        0 <= m,
    ensures
        total(m, group_error(sets, error)) == named(sets, m) * error,
    decreases m,
{
    let size = |i: int| sets[i].len() as int;
    assert(named(sets, m) == total(m, size));
    if m > 0 {
        lemma_group_errors(sets, error, m - 1);
        assert(named(sets, m - 1) == total(m - 1, size));
        let before = named(sets, m - 1);
        let last = sets[m - 1].len() as int;
        assert((before + last) * error == before * error + last * error) by (nonlinear_arith);
    } else {
        assert(0 * error == 0) by (nonlinear_arith);
    }
}

/// Carrying a partition over to the finer graph keeps the weight of each part up
/// to rounding: if no addition is off by more than a given error, the vertices
/// of a part and the coarse vertices that the coarse partition puts there add up
/// to weights that differ by no more than three times that error for each
/// vertex. This holds of graphs without loops of positive weight.
pub proof fn law_uncoarse_nearly_keeps_part_weights<F: Fn(Double, Double) -> Double>(
    plus: F,
    rows: Adjacency,
    weights: Seq<Double>,
    order: Seq<usize>,
    m: SparseMatrix,
    sets: Seq<Seq<usize>>,
    coarse_weights: Seq<Double>,
    part: Seq<usize>,
    id: usize,
    error: int,
    limit: int,
    fine_weight: Double,
    coarse_weight: Double,
)
    requires
        in_range(rows),
        no_positive_loops(rows),
        rows.len() <= usize::MAX,
        weights.len() == rows.len(),
        visits_all(order, rows.len()),
        coarsens(plus, rows, weights, order, m, sets, coarse_weights),
        error >= 0,
        adds_nearly(plus, error, limit),
        forall|v: int| 0 <= v < weights.len() ==> (#[trigger] weights[v]).value() >= 0,
        worth(weights) + 2 * (rows.len() * error) <= limit,
        sums_to(
            plus,
            weights_in(id, uncoarse(part, sets), weights, rows.len() as int),
            fine_weight,
        ),
        sums_to(plus, weights_in(id, part, coarse_weights, sets.len() as int), coarse_weight),
    ensures
        magnitude(fine_weight.value() - coarse_weight.value()) <= 3 * (rows.len() * error),
{
    lemma_matched(plus, rows, weights, order, m, sets, coarse_weights);
    lemma_matching_complete(rows, order);
    let n = rows.len() as int;
    let k = sets.len() as int;
    let g = face_value();
    let fine = uncoarse(part, sets);
    let all = each(weights);
    let slack = n * error;
    lemma_total_ext(n, all, |v: int| g(weights[v]));
    assert(worth(weights) == total(n, all));
    assert forall|v: int| 0 <= v < weights.len() implies whole(#[trigger] weights[v], 1) by {
        assert(weights[v].value() >= 0);
    }
    assert forall|v: int| 0 <= v < n implies #[trigger] all(v) >= 0 by {
        assert(whole(weights[v], 1));
    }
    assert(slack >= 0) by (nonlinear_arith)
        requires
            slack == n * error,
            n >= 0,
            error >= 0,
    ;
    // The vertices of the part.
    let inside = part_term(id, fine, weights, g);
    let fine_list = weights_in(id, fine, weights, n);
    lemma_weights_in_whole(id, fine, weights, 1, n);
    lemma_weights_in_len(id, fine, weights, n);
    lemma_amount_of_part(id, fine, weights, g, n);
    assert forall|v: int| 0 <= v < n implies #[trigger] inside(v) <= all(v) by {
        assert(all(v) >= 0);
    }
    lemma_total_mono(n, inside, all);
    assert(fine_list.len() * error <= slack) by (nonlinear_arith)
        requires
            fine_list.len() <= n,
            error >= 0,
            slack == n * error,
    ;
    assert forall|i: int| 0 <= i < fine_list.len() implies (#[trigger] fine_list[i]).value()
        >= 0 by {
        assert(whole(fine_list[i], 1));
    }
    lemma_near_total(plus, error, limit, fine_list, fine_weight);
    // Each group.
    lemma_total_by_group(sets, rows.len(), all);
    let grouped = |c: int| group_total(sets, all, c);
    let off = group_error(sets, error);
    assert forall|c: int| 0 <= c < k implies #[trigger] grouped(c) >= 0 && off(c) >= 0
        && coarse_weights[c].value() >= 0 && magnitude(coarse_weights[c].value() - grouped(c))
        <= off(c) && amount(weights_of(sets[c], weights), g) == grouped(c) by {
        let list = weights_of(sets[c], weights);
        lemma_group_worth(sets, rows.len(), weights, 1, c);
        lemma_group_share(sets, rows.len(), weights, 1, c);
        assert(sums_to(plus, list, coarse_weights[c]));
        lemma_group_within(sets, rows.len(), c);
        assert(0 <= list.len() * error <= slack) by (nonlinear_arith)
            requires
                0 <= list.len() <= n,
                error >= 0,
                slack == n * error,
        ;
        assert forall|i: int| 0 <= i < list.len() implies (#[trigger] list[i]).value() >= 0 by {
            assert(whole(list[i], 1));
        }
        lemma_near_total(plus, error, limit, list, coarse_weights[c]);
    }
    // The coarse vertices of the part.
    lemma_group_errors(sets, error, k);
    lemma_all_named(sets, n);
    assert(total(k, off) == slack);
    assert forall|c: int| 0 <= c < coarse_weights.len() implies whole(
        #[trigger] coarse_weights[c],
        1,
    ) by {
        assert(grouped(c) >= 0);
    }
    let taken = part_term(id, part, coarse_weights, g);
    let by_part = groups_term(id, part, sets, weights, g);
    let coarse_list = weights_in(id, part, coarse_weights, k);
    lemma_weights_in_whole(id, part, coarse_weights, 1, k);
    lemma_weights_in_len(id, part, coarse_weights, k);
    lemma_amount_of_part(id, part, coarse_weights, g, k);
    lemma_part_amounts(id, part, sets, weights, g, rows.len());
    let shift = |c: int| taken(c) - by_part(c);
    assert forall|c: int| 0 <= c < k implies magnitude(#[trigger] shift(c)) <= off(c) by {
        assert(grouped(c) >= 0);
    }
    lemma_total_magnitude(k, shift, off);
    lemma_total_plus(k, by_part, shift, taken);
    assert(worth(fine_list) == total(k, by_part));
    assert(worth(coarse_list) == total(k, taken));
    assert(coarse_list.len() * error <= slack) by (nonlinear_arith)
        requires
            coarse_list.len() <= k,
            k <= n,
            error >= 0,
            slack == n * error,
    ;
    assert forall|i: int| 0 <= i < coarse_list.len() implies (#[trigger] coarse_list[i]).value()
        >= 0 by {
        assert(whole(coarse_list[i], 1));
    }
    lemma_near_total(plus, error, limit, coarse_list, coarse_weight);
}

/// A group holds no more vertices than there are.
proof fn lemma_group_within(sets: Seq<Seq<usize>>, n: nat, c: int)
    requires
        partitions_vertices(sets, n),
        proper(sets),
        0 <= c < sets.len(),
    ensures
        sets[c].len() <= n,
{
    let group = sets[c];
    assert(group.contains(group[0]));
    if group.len() == 2 {
        assert(group.contains(group[1]));
        assert(group[0] != group[1]);
    }
}

} // verus!
