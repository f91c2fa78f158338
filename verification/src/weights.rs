//! Sums of vertex weights.
//!
//! How two weights are added is up to the caller. What is added, and in which
//! order, is fixed here.

use crate::double::Double;
use vstd::prelude::*;

verus! {

/// `sums` are the running sums of `terms`: the first is zero, and each further
/// one is what adding the next term to the one before it gives.
pub open spec fn running<F: Fn(Double, Double) -> Double>(
    plus: F,
    terms: Seq<Double>,
    sums: Seq<Double>,
) -> bool {
    &&& sums.len() == terms.len() + 1
    &&& sums[0] == (Double { bits: 0 })
    &&& forall|k: int|
        0 <= k < terms.len() ==> call_ensures(plus, (sums[k], #[trigger] terms[k]), sums[k + 1])
}

/// `sum` is a sum of `terms`, added one after the other to zero.
pub open spec fn sums_to<F: Fn(Double, Double) -> Double>(
    plus: F,
    terms: Seq<Double>,
    sum: Double,
) -> bool {
    exists|sums: Seq<Double>| #[trigger] running(plus, terms, sums) && sum == sums.last()
}

/// The weights of those of the first `n` vertices that are in a part, in
/// order.
pub open spec fn weights_in(
    id: usize,
    part: Seq<usize>,
    weights: Seq<Double>,
    n: int,
) -> Seq<Double>
    decreases n,
{
    if n <= 0 {
        Seq::empty()
    } else if part[n - 1] == id {
        weights_in(id, part, weights, n - 1).push(weights[n - 1])
    } else {
        weights_in(id, part, weights, n - 1)
    }
}

/// The weights of the vertices of a list.
pub open spec fn weights_of(list: Seq<usize>, weights: Seq<Double>) -> Seq<Double> {
    Seq::new(list.len(), |k: int| weights[list[k] as int])
}

/// One more term makes one more running sum.
pub proof fn lemma_running_step<F: Fn(Double, Double) -> Double>(
    plus: F,
    terms: Seq<Double>,
    sums: Seq<Double>,
    term: Double,
    sum: Double,
)
    requires
        running(plus, terms, sums),
        call_ensures(plus, (sums.last(), term), sum),
    ensures
        running(plus, terms.push(term), sums.push(sum)),
{
    let more = terms.push(term);
    let longer = sums.push(sum);
    assert forall|k: int| 0 <= k < more.len() implies call_ensures(
        plus,
        (longer[k], #[trigger] more[k]),
        longer[k + 1],
    ) by {
        if k < terms.len() {
            assert(more[k] == terms[k]);
        }
    }
}

/// Adding up nothing gives zero. Adding up one more term gives what adding it to
/// a sum of the terms before it gives.
pub proof fn law_sums_grow_term_by_term<F: Fn(Double, Double) -> Double>(
    plus: F,
    terms: Seq<Double>,
    term: Double,
    sum: Double,
)
    ensures
        sums_to(plus, Seq::empty(), sum) <==> sum.bits == 0,
        sums_to(plus, terms.push(term), sum) <==> exists|less: Double| #[trigger]
            sums_to(plus, terms, less) && call_ensures(plus, (less, term), sum),
{
    if sum.bits == 0 {
        assert(running(plus, Seq::empty(), seq![sum]));
    }
    let more = terms.push(term);
    if sums_to(plus, more, sum) {
        let sums = choose|sums: Seq<Double>| #[trigger]
            running(plus, more, sums) && sum == sums.last();
        let fewer = sums.drop_last();
        assert forall|k: int| 0 <= k < terms.len() implies call_ensures(
            plus,
            (fewer[k], #[trigger] terms[k]),
            fewer[k + 1],
        ) by {
            assert(more[k] == terms[k]);
        }
        assert(running(plus, terms, fewer));
        assert(sums_to(plus, terms, fewer.last()));
        assert(more[terms.len() as int] == term);
    }
    if exists|less: Double| #[trigger]
        sums_to(plus, terms, less) && call_ensures(plus, (less, term), sum) {
        let less = choose|less: Double| #[trigger]
            sums_to(plus, terms, less) && call_ensures(plus, (less, term), sum);
        let sums = choose|sums: Seq<Double>| #[trigger]
            running(plus, terms, sums) && less == sums.last();
        lemma_running_step(plus, terms, sums, term, sum);
        assert(running(plus, more, sums.push(sum)));
    }
}

/// The weight of a part: the weights of its vertices, added in order.
pub fn get_weight_of_partition<F: Fn(Double, Double) -> Double>(
    partition_id: usize,
    partitions: &[usize],
    vertex_weights: &[Double],
    plus: F,
) -> (weight: Double)
    requires
        forall|v: int|
            0 <= v < partitions@.len() && #[trigger] partitions@[v] == partition_id ==> v
                < vertex_weights@.len(),
        forall|a: Double, b: Double| call_requires(plus, (a, b)),
    ensures
        sums_to(
            plus,
            weights_in(partition_id, partitions@, vertex_weights@, partitions@.len() as int),
            weight,
        ),
{
    let mut weight: Double = Double::zero();
    let ghost mut sums: Seq<Double> = seq![weight];
    let mut v: usize = 0;
    while v < partitions.len()
        invariant
            v <= partitions@.len(),
            forall|x: int|
                0 <= x < partitions@.len() && #[trigger] partitions@[x] == partition_id ==> x
                    < vertex_weights@.len(),
            forall|a: Double, b: Double| call_requires(plus, (a, b)),
            running(
                plus,
                weights_in(partition_id, partitions@, vertex_weights@, v as int),
                sums,
            ),
            weight == sums.last(),
        decreases partitions@.len() - v,
    {
        if partitions[v] == partition_id {
            let sum: Double = plus(weight, vertex_weights[v]);
            proof {
                lemma_running_step(
                    plus,
                    weights_in(partition_id, partitions@, vertex_weights@, v as int),
                    sums,
                    vertex_weights@[v as int],
                    sum,
                );
                sums = sums.push(sum);
            }
            weight = sum;
        }
        v += 1;
    }
    weight
}

/// The weight of a group of vertices: their weights, added in order.
pub fn weight_of_group<F: Fn(Double, Double) -> Double>(
    group: &Vec<usize>,
    vertex_weights: &[Double],
    plus: F,
) -> (weight: Double)
    requires
        forall|k: int| 0 <= k < group@.len() ==> #[trigger] group@[k] < vertex_weights@.len(),
        forall|a: Double, b: Double| call_requires(plus, (a, b)),
    ensures
        sums_to(plus, weights_of(group@, vertex_weights@), weight),
{
    let mut weight: Double = Double::zero();
    let ghost mut sums: Seq<Double> = seq![weight];
    let ghost terms = weights_of(group@, vertex_weights@);
    assert(terms.take(0) == Seq::<Double>::empty());
    let mut k: usize = 0;
    while k < group.len()
        invariant
            k <= group@.len(),
            terms == weights_of(group@, vertex_weights@),
            forall|j: int| 0 <= j < group@.len() ==> #[trigger] group@[j] < vertex_weights@.len(),
            forall|a: Double, b: Double| call_requires(plus, (a, b)),
            running(plus, terms.take(k as int), sums),
            weight == sums.last(),
        decreases group@.len() - k,
    {
        assert(group@[k as int] < vertex_weights@.len());
        let sum: Double = plus(weight, vertex_weights[group[k]]);
        proof {
            lemma_running_step(plus, terms.take(k as int), sums, terms[k as int], sum);
            assert(terms.take(k + 1) == terms.take(k as int).push(terms[k as int]));
            sums = sums.push(sum);
        }
        weight = sum;
        k += 1;
    }
    assert(terms.take(terms.len() as int) == terms);
    weight
}

} // verus!
