//! The arithmetic on doubles, handed in by the caller, and what is computed
//! with it.
//!
//! Nothing is known of the results of the operations here. What is fixed is
//! which operations are applied to what.

use crate::double::Double;
use crate::rebalance::Load;
use crate::slots::SLOTS_PER_PART;
use crate::weights::{get_weight_of_partition, lemma_running_step, running, sums_to, weights_in};
use vstd::prelude::*;

verus! {

/// The bits of 0.99.
pub const BITS_OF_99_HUNDREDTHS: u64 = 0x3fef_ae14_7ae1_47ae;

/// The bits of 1.
pub const BITS_OF_ONE: u64 = 0x3ff0_0000_0000_0000;

/// The bits of 1.5.
pub const BITS_OF_THREE_HALVES: u64 = 0x3ff8_0000_0000_0000;

/// The bits of 100.
pub const BITS_OF_HUNDRED: u64 = 0x4059_0000_0000_0000;

/// Operations on doubles.
pub struct Arithmetic<I, P, N, T, O, W, C, F> {
    /// The imbalance of a partition into a number of parts, by the weights of
    /// the vertices.
    pub imbalance: I,
    /// The sum of two numbers.
    pub plus: P,
    /// The first number less the second.
    pub minus: N,
    /// The product of two numbers.
    pub times: T,
    /// The first number divided by the second.
    pub over: O,
    /// An integer as a double.
    pub widen: W,
    /// A count as a double.
    pub count: C,
    /// A number rounded down to an integer.
    pub floor: F,
}

impl<I, P, N, T, O, W, C, F> Arithmetic<I, P, N, T, O, W, C, F> where
    I: Fn(usize, &Vec<usize>, &[Double]) -> Double + Copy,
    P: Fn(Double, Double) -> Double + Copy,
    N: Fn(Double, Double) -> Double + Copy,
    T: Fn(Double, Double) -> Double + Copy,
    O: Fn(Double, Double) -> Double + Copy,
    W: Fn(i64) -> Double + Copy,
    C: Fn(usize) -> Double + Copy,
    F: Fn(Double) -> i64 + Copy,
 {
    /// The operations can be applied to anything.
    pub open spec fn usable(&self) -> bool {
        &&& forall|n: usize, p: &Vec<usize>, w: &[Double]| call_requires(self.imbalance, (n, p, w))
        &&& forall|a: Double, b: Double| call_requires(self.plus, (a, b))
        &&& forall|a: Double, b: Double| call_requires(self.minus, (a, b))
        &&& forall|a: Double, b: Double| call_requires(self.times, (a, b))
        &&& forall|a: Double, b: Double| call_requires(self.over, (a, b))
        &&& forall|x: i64| call_requires(self.widen, (x,))
        &&& forall|x: usize| call_requires(self.count, (x,))
        &&& forall|x: Double| call_requires(self.floor, (x,))
    }

    /// The imbalance of a partition may come out as `d`.
    pub open spec fn measures(
        &self,
        parts: usize,
        part: Seq<usize>,
        weights: &[Double],
        d: Double,
    ) -> bool {
        exists|p: Vec<usize>|
            p@ == part && #[trigger] call_ensures(self.imbalance, (parts, &p, weights), d)
    }

    /// A factor times an integer may come out as `product`.
    pub open spec fn scales(&self, factor: Double, x: i64, product: Double) -> bool {
        exists|wide: Double| #[trigger]
            call_ensures(self.widen, (x,), wide) && call_ensures(
                self.times,
                (factor, wide),
                product,
            )
    }

    /// A factor times an integer, rounded down, may come out as `share`.
    pub open spec fn shares(&self, factor: Double, x: i64, share: i64) -> bool {
        exists|product: Double| #[trigger]
            self.scales(factor, x, product) && call_ensures(self.floor, (product,), share)
    }

    /// The greatest weight that a part may have may come out as `bound`: the
    /// average weight and, on top, its balance factor.
    pub open spec fn bounds_weight(
        &self,
        balance_factor: Double,
        total: Double,
        parts: Double,
        bound: Double,
    ) -> bool {
        exists|factor: Double, product: Double| #[trigger]
            call_ensures(self.plus, (Double { bits: BITS_OF_ONE }, balance_factor), factor)
                && #[trigger] call_ensures(self.times, (factor, total), product) && call_ensures(
                self.over,
                (product, parts),
                bound,
            )
    }

    /// The greatest weight of a part that takes in vertices may come out as
    /// `bound`: 99 hundredths of the greatest weight, or 100 less than the
    /// greatest weight if that is more.
    pub open spec fn bounds_destination(&self, max_weight: Double, bound: Double) -> bool {
        exists|near: Double, lowered: Double| #[trigger]
            call_ensures(
                self.times,
                (max_weight, Double { bits: BITS_OF_99_HUNDREDTHS }),
                near,
            ) && #[trigger] call_ensures(
                self.minus,
                (max_weight, Double { bits: BITS_OF_HUNDRED }),
                lowered,
            ) && bound == if near.lt(lowered) {
                lowered
            } else {
                near
            }
    }

    /// The limit for vertices that leave a part may come out as `limit`: one
    /// and a half times what the part weighs above the average.
    pub open spec fn limits_vertex(&self, weight: Double, average: Double, limit: Double) -> bool {
        exists|surplus: Double| #[trigger]
            call_ensures(self.minus, (weight, average), surplus) && call_ensures(
                self.times,
                (Double { bits: BITS_OF_THREE_HALVES }, surplus),
                limit,
            )
    }

    /// What the parts weigh and may weigh may come out as `load`.
    pub open spec fn loads(
        &self,
        balance_factor: Double,
        parts: usize,
        part: Seq<usize>,
        weights: Seq<Double>,
        load: Load,
    ) -> bool {
        &&& load.weights@.len() == parts
        &&& load.limits@.len() == parts
        &&& load.excesses@.len() == parts
        &&& self.bounds_destination(load.max_weight, load.max_weight_dest)
        &&& exists|total: Double, number: Double, average: Double|
            {
                &&& #[trigger] sums_to(self.plus, weights, total)
                &&& #[trigger] call_ensures(self.count, (parts,), number)
                &&& #[trigger] call_ensures(self.over, (total, number), average)
                &&& self.bounds_weight(balance_factor, total, number, load.max_weight)
                &&& forall|p: int|
                    0 <= p < parts ==> self.limits_vertex(
                        load.weights@[p],
                        average,
                        #[trigger] load.limits@[p],
                    )
            }
        &&& forall|p: int|
            0 <= p < parts ==> sums_to(
                self.plus,
                weights_in(p as usize, part, weights, part.len() as int),
                #[trigger] load.weights@[p],
            )
        &&& forall|p: int|
            0 <= p < parts ==> call_ensures(
                self.minus,
                (load.weights@[p], load.max_weight),
                #[trigger] load.excesses@[p],
            )
    }

    /// A factor times an integer.
    pub fn scale(&self, factor: Double, x: i64) -> (product: Double)
        requires
            self.usable(),
        ensures
            self.scales(factor, x, product),
    {
        let widen: W = self.widen;
        let times: T = self.times;
        let wide: Double = widen(x);
        times(factor, wide)
    }

    /// A factor times an integer, rounded down.
    pub fn share(&self, factor: Double, x: i64) -> (result: i64)
        requires
            self.usable(),
        ensures
            self.shares(factor, x, result),
    {
        let floor: F = self.floor;
        let product: Double = self.scale(factor, x);
        floor(product)
    }

    /// The sum of all weights.
    pub fn total_weight(&self, weights: &[Double]) -> (total: Double)
        requires
            self.usable(),
        ensures
            sums_to(self.plus, weights@, total),
    {
        let plus: P = self.plus;
        let mut total: Double = Double::zero();
        let ghost mut sums: Seq<Double> = seq![total];
        assert(weights@.take(0) == Seq::<Double>::empty());
        let mut v: usize = 0;
        while v < weights.len()
            invariant
                self.usable(),
                plus == self.plus,
                v <= weights@.len(),
                running(plus, weights@.take(v as int), sums),
                total == sums.last(),
            decreases weights@.len() - v,
        {
            let sum: Double = plus(total, weights[v]);
            proof {
                lemma_running_step(plus, weights@.take(v as int), sums, weights@[v as int], sum);
                assert(weights@.take(v + 1) == weights@.take(v as int).push(weights@[v as int]));
                sums = sums.push(sum);
            }
            total = sum;
            v += 1;
        }
        assert(weights@.take(weights@.len() as int) == weights@);
        total
    }

    /// What the parts of a partition weigh and may weigh.
    pub fn load(
        &self,
        balance_factor: Double,
        parts: usize,
        partition: &[usize],
        weights: &[Double],
    ) -> (load: Load)
        requires
            self.usable(),
            partition@.len() <= weights@.len(),
            parts * SLOTS_PER_PART <= usize::MAX,
        ensures
            self.loads(balance_factor, parts, partition@, weights@, load),
            load.consistent(),
    {
        let plus: P = self.plus;
        let minus: N = self.minus;
        let times: T = self.times;
        let over: O = self.over;
        let count: C = self.count;
        let total: Double = self.total_weight(weights);
        let number: Double = count(parts);
        let factor: Double = plus(Double { bits: BITS_OF_ONE }, balance_factor);
        let product: Double = times(factor, total);
        let max_weight: Double = over(product, number);
        let average: Double = over(total, number);
        assert(self.bounds_weight(balance_factor, total, number, max_weight));
        let near: Double = times(max_weight, Double { bits: BITS_OF_99_HUNDREDTHS });
        let lowered: Double = minus(max_weight, Double { bits: BITS_OF_HUNDRED });
        let max_weight_dest: Double = if near.less(&lowered) {
            lowered
        } else {
            near
        };
        assert(self.bounds_destination(max_weight, max_weight_dest));
        let mut part_weights: Vec<Double> = Vec::new();
        let mut limits: Vec<Double> = Vec::new();
        let mut excesses: Vec<Double> = Vec::new();
        let mut p: usize = 0;
        while p < parts
            invariant
                self.usable(),
                plus == self.plus,
                minus == self.minus,
                times == self.times,
                partition@.len() <= weights@.len(),
                p <= parts,
                part_weights@.len() == p,
                limits@.len() == p,
                excesses@.len() == p,
                forall|q: int|
                    0 <= q < p ==> self.limits_vertex(
                        part_weights@[q],
                        average,
                        #[trigger] limits@[q],
                    ),
                forall|q: int|
                    0 <= q < p ==> sums_to(
                        plus,
                        weights_in(q as usize, partition@, weights@, partition@.len() as int),
                        #[trigger] part_weights@[q],
                    ),
                forall|q: int|
                    0 <= q < p ==> call_ensures(
                        minus,
                        (part_weights@[q], max_weight),
                        #[trigger] excesses@[q],
                    ),
            decreases parts - p,
        {
            let weight: Double = get_weight_of_partition(p, partition, weights, plus);
            let surplus: Double = minus(weight, average);
            let limit: Double = times(Double { bits: BITS_OF_THREE_HALVES }, surplus);
            assert(self.limits_vertex(weight, average, limit));
            let excess: Double = minus(weight, max_weight);
            part_weights.push(weight);
            limits.push(limit);
            excesses.push(excess);
            p += 1;
        }
        Load { max_weight, max_weight_dest, weights: part_weights, limits, excesses }
    }
}

} // verus!
