//! What the lists hold that are picked from others: every element that meets a
//! condition, in the order of the list it is picked from.

use crate::double::Double;
use crate::geometric::positives;
use crate::rebalance::{adjacent, parts_above, parts_within};
use crate::refine::{eligible, other_parts};
use crate::weights::weights_in;
use vstd::prelude::*;

verus! {

/// The numbers below `n` that meet a condition, in ascending order.
pub open spec fn numbers_where(n: nat, condition: spec_fn(usize) -> bool) -> Seq<usize> {
    Seq::new(n, |i: int| i as usize).filter(condition)
}

proof fn lemma_one_more_number(n: nat, condition: spec_fn(usize) -> bool)
    requires
        n > 0,
    ensures
        numbers_where(n, condition) == if condition((n - 1) as usize) {
            numbers_where((n - 1) as nat, condition).push((n - 1) as usize)
        } else {
            numbers_where((n - 1) as nat, condition)
        },
{
    reveal(Seq::filter);
    let numbers = Seq::new(n, |i: int| i as usize);
    assert(numbers.drop_last() =~= Seq::new((n - 1) as nat, |i: int| i as usize));
}

proof fn lemma_one_more_part(
    row: Seq<(usize, i64)>,
    part: Seq<usize>,
    k: nat,
    condition: spec_fn(usize) -> bool,
)
    requires
        k > 0,
    ensures
        Seq::new(k, |i: int| part[row[i].0 as int]).filter(condition) == if condition(
            part[row[k - 1].0 as int],
        ) {
            Seq::new((k - 1) as nat, |i: int| part[row[i].0 as int]).filter(condition).push(
                part[row[k - 1].0 as int],
            )
        } else {
            Seq::new((k - 1) as nat, |i: int| part[row[i].0 as int]).filter(condition)
        },
{
    reveal(Seq::filter);
    let parts = Seq::new(k, |i: int| part[row[i].0 as int]);
    assert(parts.drop_last() =~= Seq::new((k - 1) as nat, |i: int| part[row[i].0 as int]));
}

/// The parts that a vertex can move to are those of its neighbors, in the order
/// of its list and as often as they occur there, without its own.
pub proof fn law_choices_are_parts_of_neighbors(
    row: Seq<(usize, i64)>,
    part: Seq<usize>,
    own: usize,
    k: nat,
)
    requires
        k <= row.len(),
    ensures
        other_parts(row, part, own, k as int) == Seq::new(
            k,
            |i: int| part[row[i].0 as int],
        ).filter(|p: usize| p != own),
    decreases k,
{
    if k > 0 {
        law_choices_are_parts_of_neighbors(row, part, own, (k - 1) as nat);
        lemma_one_more_part(row, part, k, |p: usize| p != own);
    } else {
        reveal(Seq::filter);
        assert(Seq::new(k, |i: int| part[row[i].0 as int]).len() == 0);
    }
}

/// The parts next to a vertex that can take it in are those of its neighbors, in
/// the order of its list and as often as they occur there, that are on offer.
pub proof fn law_adjacent_parts_are_on_offer(
    row: Seq<(usize, i64)>,
    part: Seq<usize>,
    offer: Seq<usize>,
    k: nat,
)
    requires
        k <= row.len(),
    ensures
        adjacent(row, part, offer, k as int) == Seq::new(
            k,
            |i: int| part[row[i].0 as int],
        ).filter(|p: usize| offer.contains(p)),
    decreases k,
{
    if k > 0 {
        law_adjacent_parts_are_on_offer(row, part, offer, (k - 1) as nat);
        lemma_one_more_part(row, part, k, |p: usize| offer.contains(p));
    } else {
        reveal(Seq::filter);
        assert(Seq::new(k, |i: int| part[row[i].0 as int]).len() == 0);
    }
}

/// The heavy parts are those that weigh more than the bound, in ascending order.
pub proof fn law_heavy_parts_are_above(bound: Double, weights: Seq<Double>, n: nat)
    requires
        n <= weights.len() <= usize::MAX,
    ensures
        parts_above(bound, weights, n as int) == numbers_where(
            n,
            |p: usize| bound.lt(weights[p as int]),
        ),
    decreases n,
{
    if n > 0 {
        law_heavy_parts_are_above(bound, weights, (n - 1) as nat);
        lemma_one_more_number(n, |p: usize| bound.lt(weights[p as int]));
    } else {
        reveal(Seq::filter);
        assert(Seq::new(n, |i: int| i as usize).len() == 0);
    }
}

/// The light parts are those that weigh no more than the bound, in ascending order.
pub proof fn law_light_parts_are_within(bound: Double, weights: Seq<Double>, n: nat)
    requires
        n <= weights.len() <= usize::MAX,
    ensures
        parts_within(bound, weights, n as int) == numbers_where(
            n,
            |p: usize| bound.ge(weights[p as int]),
        ),
    decreases n,
{
    if n > 0 {
        law_light_parts_are_within(bound, weights, (n - 1) as nat);
        lemma_one_more_number(n, |p: usize| bound.ge(weights[p as int]));
    } else {
        reveal(Seq::filter);
        assert(Seq::new(n, |i: int| i as usize).len() == 0);
    }
}

/// The vertices that pass the first filter are those that are not locked and gain
/// by moving, or lose less than their allowance, in ascending order.
pub proof fn law_first_filter(
    locked: Set<usize>,
    gain: Seq<i64>,
    allowance: Seq<i64>,
    n: nat,
)
    requires
        n <= gain.len() <= usize::MAX,
    ensures
        eligible(locked, gain, allowance, n as int) == numbers_where(
            n,
            |v: usize|
                !locked.contains(v) && (gain[v as int] > 0 || -gain[v as int]
                    < allowance[v as int]),
        ),
    decreases n,
{
    if n > 0 {
        law_first_filter(locked, gain, allowance, (n - 1) as nat);
        lemma_one_more_number(
            n,
            |v: usize|
                !locked.contains(v) && (gain[v as int] > 0 || -gain[v as int]
                    < allowance[v as int]),
        );
    } else {
        reveal(Seq::filter);
        assert(Seq::new(n, |i: int| i as usize).len() == 0);
    }
}

/// The positive places are those of the numbers greater than zero, in ascending
/// order.
pub proof fn law_positive_places(values: Seq<Double>, n: nat)
    requires
        n <= values.len() <= usize::MAX,
    ensures
        positives(values, n as int) == numbers_where(
            n,
            |i: usize| !values[i as int].nan() && values[i as int].place() > 0,
        ),
    decreases n,
{
    if n > 0 {
        law_positive_places(values, (n - 1) as nat);
        lemma_one_more_number(
            n,
            |i: usize| !values[i as int].nan() && values[i as int].place() > 0,
        );
    } else {
        reveal(Seq::filter);
        assert(Seq::new(n, |i: int| i as usize).len() == 0);
    }
}

/// The weights that make up a part are those of its vertices, in ascending order
/// of the vertices.
pub proof fn law_part_weights(id: usize, part: Seq<usize>, weights: Seq<Double>, n: nat)
    requires
        n <= part.len() <= usize::MAX,
    ensures
        weights_in(id, part, weights, n as int) == numbers_where(
            n,
            |v: usize| part[v as int] == id,
        ).map_values(|v: usize| weights[v as int]),
    decreases n,
{
    let own = |v: usize| part[v as int] == id;
    let weight = |v: usize| weights[v as int];
    if n > 0 {
        law_part_weights(id, part, weights, (n - 1) as nat);
        lemma_one_more_number(n, own);
        let before = numbers_where((n - 1) as nat, own);
        assert(before.push((n - 1) as usize).map_values(weight) =~= before.map_values(weight).push(
            weights[n - 1],
        ));
    } else {
        reveal(Seq::filter);
        assert(Seq::new(n, |i: int| i as usize).len() == 0);
        assert(numbers_where(n, own).map_values(weight) =~= Seq::empty());
    }
}

} // verus!
