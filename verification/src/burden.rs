//! What the parts of a partition weigh and may weigh.

use crate::arithmetic::Arithmetic;
use crate::double::Double;
use crate::listing::{law_part_weights, numbers_where};
use crate::rebalance::{lemma_parts_above, Load};
use crate::weights::{sums_to, weights_in};
use vstd::prelude::*;

verus! {

impl<I, P, N, T, O, W, C, F> Arithmetic<I, P, N, T, O, W, C, F> where
    I: Fn(usize, &Vec<usize>, &[Double]) -> Double + Copy,
    P: Fn(Double, Double) -> Double + Copy,
    N: Fn(Double, Double) -> Double + Copy,
    T: Fn(Double, Double) -> Double + Copy,
    O: Fn(Double, Double) -> Double + Copy,
    W: Fn(i64) -> Double + Copy,
    C: Fn(usize) -> Double + Copy,
    F: Fn(Double) -> i64 + Copy,
 {
    /// The weight of a part is the sum of the weights of its vertices, in ascending
    /// order, and its excess is that weight less the greatest weight.
    pub proof fn law_part_weighs_its_vertices(
        &self,
        balance_factor: Double,
        parts: usize,
        part: Seq<usize>,
        weights: Seq<Double>,
        load: Load,
        p: usize,
    )
        requires
            self.loads(balance_factor, parts, part, weights, load),
            part.len() <= usize::MAX,
            p < parts,
        ensures
            load.weights@.len() == parts,
            load.excesses@.len() == parts,
            sums_to(
                self.plus,
                numbers_where(part.len(), |v: usize| part[v as int] == p).map_values(
                    |v: usize| weights[v as int],
                ),
                load.weights@[p as int],
            ),
            call_ensures(
                self.minus,
                (load.weights@[p as int], load.max_weight),
                load.excesses@[p as int],
            ),
    {
        law_part_weights(p, part, weights, part.len());
        let weight = load.weights@[p as int];
        let excess = load.excesses@[p as int];
        assert(sums_to(
            self.plus,
            weights_in(p, part, weights, part.len() as int),
            weight,
        ));
    }

    /// The greatest weight of a part is the total weight of all vertices times one
    /// plus the balance factor, divided by the number of parts. The limit for a
    /// vertex that leaves a part is one and a half times the weight of the part less
    /// the total weight divided by the number of parts.
    pub proof fn law_bounds_follow_average(
        &self,
        balance_factor: Double,
        parts: usize,
        part: Seq<usize>,
        weights: Seq<Double>,
        load: Load,
        p: int,
    )
        requires
            self.loads(balance_factor, parts, part, weights, load),
            0 <= p < parts,
        ensures
            load.limits@.len() == parts,
            exists|total: Double, number: Double, average: Double|
                {
                    &&& #[trigger] sums_to(self.plus, weights, total)
                    &&& #[trigger] call_ensures(self.count, (parts,), number)
                    &&& #[trigger] call_ensures(self.over, (total, number), average)
                    &&& exists|factor: Double, product: Double|
                        {
                            &&& #[trigger] call_ensures(
                                self.plus,
                                (Double { bits: 0x3ff0_0000_0000_0000 }, balance_factor),
                                factor,
                            )
                            &&& #[trigger] call_ensures(self.times, (factor, total), product)
                            &&& call_ensures(self.over, (product, number), load.max_weight)
                        }
                    &&& exists|surplus: Double| #[trigger]
                        call_ensures(
                            self.minus,
                            (load.weights@[p], average),
                            surplus,
                        ) && call_ensures(
                            self.times,
                            (Double { bits: 0x3ff8_0000_0000_0000 }, surplus),
                            load.limits@[p],
                        )
                },
    {
        let (total, number, average) = choose|total: Double, number: Double, average: Double|
            {
                &&& #[trigger] sums_to(self.plus, weights, total)
                &&& #[trigger] call_ensures(self.count, (parts,), number)
                &&& #[trigger] call_ensures(self.over, (total, number), average)
                &&& self.bounds_weight(balance_factor, total, number, load.max_weight)
                &&& forall|p: int|
                    0 <= p < parts ==> self.limits_vertex(
                        load.weights@[p],
                        average,
                        #[trigger] load.limits@[p],
                    )
            };
        assert(sums_to(self.plus, weights, total));
        assert(call_ensures(self.count, (parts,), number));
        assert(call_ensures(self.over, (total, number), average));
        let limit = load.limits@[p];
        assert(self.limits_vertex(load.weights@[p], average, limit));
    }

    /// The greatest weight of a part that takes in vertices is 99 hundredths of the
    /// greatest weight or the greatest weight less 100, and none of the two is
    /// greater.
    pub proof fn law_bound_for_destinations(
        &self,
        balance_factor: Double,
        parts: usize,
        part: Seq<usize>,
        weights: Seq<Double>,
        load: Load,
    )
        requires
            self.loads(balance_factor, parts, part, weights, load),
        ensures
            exists|near: Double, lowered: Double|
                {
                    &&& #[trigger] call_ensures(
                        self.times,
                        (load.max_weight, Double { bits: 0x3fef_ae14_7ae1_47ae }),
                        near,
                    )
                    &&& #[trigger] call_ensures(
                        self.minus,
                        (load.max_weight, Double { bits: 0x4059_0000_0000_0000 }),
                        lowered,
                    )
                    &&& load.max_weight_dest == near || load.max_weight_dest == lowered
                    &&& !load.max_weight_dest.lt(near)
                    &&& !load.max_weight_dest.lt(lowered)
                    &&& lowered.nan() ==> load.max_weight_dest == near
                },
    {
    }

    /// The heavy parts have an excess to shed: it is greater than zero wherever
    /// taking a number from a greater one leaves more than nothing.
    pub proof fn law_heavy_parts_have_excess(
        &self,
        balance_factor: Double,
        parts: usize,
        part: Seq<usize>,
        weights: Seq<Double>,
        load: Load,
        p: usize,
    )
        requires
            self.loads(balance_factor, parts, part, weights, load),
            load.heavy().contains(p),
            forall|a: Double, b: Double, difference: Double|
                b.lt(a) && #[trigger] call_ensures(self.minus, (a, b), difference) ==> (Double {
                    bits: 0,
                }).lt(difference),
        ensures
            p < parts,
            (Double { bits: 0 }).lt(load.excesses@[p as int]),
    {
        lemma_parts_above(load.max_weight, load.weights@, load.weights@.len() as int);
        let excess = load.excesses@[p as int];
    }
}

} // verus!
