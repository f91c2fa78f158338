//! The geometric partitioner: separating the vertices by circles on a sphere.
//!
//! Gilbert, John R., Gary L. Miller, and Shang-Hua Teng. "Geometric mesh
//! partitioning: Implementation and experiments." SIAM Journal on Scientific
//! Computing 19, no. 6 (1998): 2091-2110.
//!
//! The points, the circles and the projections of the points onto them belong
//! to the caller. Given the projections, this module compares the circles and
//! separates the vertices by the best one.

use crate::coarsen::{lemma_shuffle_visits_all, list_ascending};
use crate::double::Double;
use crate::error::{check_lengths, length_verdict, Error};
use crate::median::{has_median, is_median, perform_partition, split};
use crate::random::shuffle_with_thread_rng;
use crate::topology::{cut, mass, Adjacency, Graph};
use vstd::prelude::*;
use vstd::slice::slice_to_vec;

verus! {

/// The settings of the geometric partitioner.
#[derive(Clone, Copy, Debug, PartialEq, Eq, Structural)]
pub struct GeometricPartitioner {
    /// How many steps the layout of the graph in the plane takes.
    pub fa2_iterations: u64,
}

impl Default for GeometricPartitioner {
    /// A hundred steps of layout.
    fn default() -> (settings: GeometricPartitioner)
        ensures
            settings.fa2_iterations == 100,
    {
        GeometricPartitioner { fa2_iterations: 100 }
    }
}

/// Nothing but zeros.
pub open spec fn zeros(n: nat) -> Seq<usize> {
    Seq::new(n, |v: int| 0)
}

/// The edge cut of the separation by a circle may come out as `quality`.
pub open spec fn is_quality<P: Fn(Double, Double) -> Double, O: Fn(Double, Double) -> Double>(
    plus: P,
    over: O,
    rows: Adjacency,
    values: Seq<Double>,
    quality: i64,
) -> bool {
    exists|median: Double| #[trigger]
        is_median(plus, over, values, median) && quality == cut(
            rows,
            split(values, median, zeros(rows.len())),
        )
}

/// The quality of a circle, given the projections of the points: the edge cut
/// of the separation. There is none if the projections have no median.
pub fn sep_quality<P: Fn(Double, Double) -> Double, O: Fn(Double, Double) -> Double>(
    values: &[Double],
    graph: &Graph,
    plus: P,
    over: O,
) -> (result: Option<i64>)
    requires
        values@.len() <= graph@.len(),
        mass(graph@) <= i64::MAX,
        forall|a: Double, b: Double| call_requires(plus, (a, b)),
        forall|a: Double, b: Double| call_requires(over, (a, b)),
    ensures
        result is Some <==> has_median(values@),
        result matches Some(quality) ==> is_quality(plus, over, graph@, values@, quality),
{
    let n: usize = graph.len();
    let mut partition: Vec<usize> = vec![0; n];
    assert(partition@ =~= zeros(graph@.len()));
    if perform_partition(values, plus, over, partition.as_mut_slice()) {
        assert(partition@.len() == graph@.len());
        Some(graph.edge_cut(partition.as_slice()))
    } else {
        None
    }
}

/// The place of the first of the smallest among the first `k` numbers, if it
/// is below the greatest number there is.
pub open spec fn first_smallest(qualities: Seq<i64>, k: int) -> Option<int>
    decreases k,
{
    if k <= 0 {
        None
    } else {
        let best = first_smallest(qualities, k - 1);
        if qualities[k - 1] < smallest(qualities, k - 1) {
            Some(k - 1)
        } else {
            best
        }
    }
}

/// The smallest of the first `k` numbers, and the greatest number there is if
/// there are none.
pub open spec fn smallest(qualities: Seq<i64>, k: int) -> i64
    decreases k,
{
    if k <= 0 {
        i64::MAX
    } else if qualities[k - 1] < smallest(qualities, k - 1) {
        qualities[k - 1]
    } else {
        smallest(qualities, k - 1)
    }
}

/// The first smallest number is in its place, nothing is smaller, and
/// everything before it is greater.
pub proof fn law_first_smallest(qualities: Seq<i64>, k: int)
    requires
        0 <= k <= qualities.len(),
    ensures
        forall|i: int| 0 <= i < k ==> smallest(qualities, k) <= #[trigger] qualities[i],
        match first_smallest(qualities, k) {
            Some(i) => 0 <= i < k && qualities[i] == smallest(qualities, k) && (forall|j: int|
                0 <= j < i ==> #[trigger] qualities[j] > qualities[i]),
            None => smallest(qualities, k) == i64::MAX,
        },
    decreases k,
{
    if k > 0 {
        law_first_smallest(qualities, k - 1);
    }
}

/// The projections onto each of the circles.
pub open spec fn projections(circles: Seq<Vec<Double>>) -> Seq<Seq<Double>> {
    Seq::new(circles.len(), |r: int| circles[r]@)
}

/// The qualities of all circles may come out as `qualities`.
pub open spec fn are_qualities<P: Fn(Double, Double) -> Double, O: Fn(Double, Double) -> Double>(
    plus: P,
    over: O,
    rows: Adjacency,
    circles: Seq<Seq<Double>>,
    qualities: Seq<i64>,
) -> bool {
    &&& qualities.len() == circles.len()
    &&& forall|r: int|
        0 <= r < circles.len() ==> is_quality(plus, over, rows, circles[r], #[trigger] qualities[r])
}

/// Every projection has a median.
pub open spec fn all_have_medians(circles: Seq<Seq<Double>>) -> bool {
    forall|r: int| 0 <= r < circles.len() ==> has_median(#[trigger] circles[r])
}

/// Finds the first of the best circles, and its quality. There is no result if
/// some projections have no median.
pub fn sep_circle<
    P: Fn(Double, Double) -> Double + Copy,
    O: Fn(Double, Double) -> Double + Copy,
>(
    graph: &Graph,
    circles: &Vec<Vec<Double>>,
    plus: P,
    over: O,
) -> (result: Option<(Option<usize>, i64)>)
    requires
        forall|r: int| 0 <= r < circles@.len() ==> (#[trigger] circles@[r])@.len() <= graph@.len(),
        mass(graph@) <= i64::MAX,
        forall|a: Double, b: Double| call_requires(plus, (a, b)),
        forall|a: Double, b: Double| call_requires(over, (a, b)),
    ensures
        result is Some <==> all_have_medians(projections(circles@)),
        result matches Some((place, quality)) ==> exists|qualities: Seq<i64>|
            {
                &&& #[trigger] are_qualities(plus, over, graph@, projections(circles@), qualities)
                &&& quality == smallest(qualities, qualities.len() as int)
                &&& match place {
                    Some(r) => r < circles@.len() && first_smallest(
                        qualities,
                        qualities.len() as int,
                    ) == Some(r as int),
                    None => first_smallest(qualities, qualities.len() as int) is None,
                }
            },
{
    let ghost all = projections(circles@);
    let mut best_quality: i64 = i64::MAX;
    let mut best: Option<usize> = None;
    let ghost mut qualities: Seq<i64> = Seq::empty();
    let mut r: usize = 0;
    while r < circles.len()
        invariant
            all == projections(circles@),
            r <= circles@.len(),
            forall|x: int|
                0 <= x < circles@.len() ==> (#[trigger] circles@[x])@.len() <= graph@.len(),
            mass(graph@) <= i64::MAX,
            forall|a: Double, b: Double| call_requires(plus, (a, b)),
            forall|a: Double, b: Double| call_requires(over, (a, b)),
            qualities.len() == r,
            forall|x: int| 0 <= x < r ==> has_median(#[trigger] all[x]),
            forall|x: int|
                0 <= x < r ==> is_quality(plus, over, graph@, all[x], #[trigger] qualities[x]),
            best_quality == smallest(qualities, r as int),
            match best {
                Some(x) => x < r && first_smallest(qualities, r as int) == Some(x as int),
                None => first_smallest(qualities, r as int) is None,
            },
        decreases circles@.len() - r,
    {
        assert(all[r as int] == circles@[r as int]@);
        match sep_quality(circles[r].as_slice(), graph, plus, over) {
            None => {
                return None;
            },
            Some(quality) => {
                let ghost before = qualities;
                proof {
                    qualities = qualities.push(quality);
                    lemma_smallest_prefix(before, qualities, r as int);
                    assert(qualities[r as int] == quality);
                    assert forall|x: int| 0 <= x < r + 1 implies is_quality(
                        plus,
                        over,
                        graph@,
                        all[x],
                        #[trigger] qualities[x],
                    ) by {
                        if x < r {
                            assert(qualities[x] == before[x]);
                        }
                    }
                }
                if quality < best_quality {
                    best_quality = quality;
                    best = Some(r);
                }
            },
        }
        r += 1;
    }
    assert(are_qualities(plus, over, graph@, all, qualities));
    Some((best, best_quality))
}

proof fn lemma_smallest_prefix(shorter: Seq<i64>, longer: Seq<i64>, k: int)
    requires
        k <= shorter.len() <= longer.len(),
        forall|i: int| 0 <= i < shorter.len() ==> #[trigger] shorter[i] == longer[i],
    ensures
        smallest(shorter, k) == smallest(longer, k),
        first_smallest(shorter, k) == first_smallest(longer, k),
    decreases k,
{
    if k > 0 {
        lemma_smallest_prefix(shorter, longer, k - 1);
        assert(shorter[k - 1] == longer[k - 1]);
    }
}

/// A round of circles: the projections onto them, and the qualities of the
/// circles.
pub struct Trial {
    /// The projections onto each circle.
    pub circles: Seq<Seq<Double>>,
    /// The qualities of the circles.
    pub qualities: Seq<i64>,
}

/// The quality of the best circle of a round.
pub open spec fn best_of(trial: Trial) -> i64 {
    smallest(trial.qualities, trial.qualities.len() as int)
}

/// The qualities of the best circles of some rounds.
pub open spec fn bests(trials: Seq<Trial>) -> Seq<i64> {
    Seq::new(trials.len(), |o: int| best_of(trials[o]))
}

/// The round may come out like this.
pub open spec fn plays<
    P: Fn(Double, Double) -> Double,
    O: Fn(Double, Double) -> Double,
    T: Fn(usize) -> Vec<Vec<Double>>,
>(
    plus: P,
    over: O,
    trial: T,
    rows: Adjacency,
    outer: usize,
    played: Trial,
) -> bool {
    &&& exists|c: Vec<Vec<Double>>|
        projections(c@) == played.circles && #[trigger] call_ensures(trial, (outer,), c)
    &&& all_have_medians(played.circles)
    &&& are_qualities(plus, over, rows, played.circles, played.qualities)
}

/// The partition after some rounds: the separation by the best circle of the
/// best round, or the partition as it was if no round had a circle.
pub open spec fn separated<P: Fn(Double, Double) -> Double, O: Fn(Double, Double) -> Double>(
    plus: P,
    over: O,
    trials: Seq<Trial>,
    before: Seq<usize>,
    after: Seq<usize>,
) -> bool {
    match first_smallest(bests(trials), trials.len() as int) {
        None => after == before,
        Some(o) => match first_smallest(
            trials[o].qualities,
            trials[o].qualities.len() as int,
        ) {
            None => false,
            Some(r) => exists|median: Double| #[trigger]
                is_median(plus, over, trials[o].circles[r], median) && after == split(
                    trials[o].circles[r],
                    median,
                    before,
                ),
        },
    }
}

/// Separates the vertices by the best of several rounds of circles.
///
/// `trial` gives the projections of the points onto the circles of a round.
/// The result is false, and the partition is left as it was, if some projections
/// have no median.
pub fn geopart<
    P: Fn(Double, Double) -> Double + Copy,
    O: Fn(Double, Double) -> Double + Copy,
    T: Fn(usize) -> Vec<Vec<Double>>,
>(
    graph: &Graph,
    rounds: usize,
    trial: T,
    plus: P,
    over: O,
    partition: &mut [usize],
) -> (done: bool)
    requires
        old(partition)@.len() == graph@.len(),
        mass(graph@) <= i64::MAX,
        forall|a: Double, b: Double| call_requires(plus, (a, b)),
        forall|a: Double, b: Double| call_requires(over, (a, b)),
        forall|o: usize| call_requires(trial, (o,)),
        forall|o: usize, c: Vec<Vec<Double>>| #[trigger]
            call_ensures(trial, (o,), c) ==> forall|r: int|
                0 <= r < c@.len() ==> (#[trigger] c@[r])@.len() == graph@.len(),
    ensures
        done ==> exists|trials: Seq<Trial>|
            {
                &&& trials.len() == rounds
                &&& forall|o: int|
                    0 <= o < rounds ==> plays(
                        plus,
                        over,
                        trial,
                        graph@,
                        o as usize,
                        #[trigger] trials[o],
                    )
                &&& #[trigger] separated(plus, over, trials, old(partition)@, final(partition)@)
            },
        !done ==> final(partition)@ == old(partition)@ && exists|o: usize, c: Vec<Vec<Double>>|
            o < rounds && #[trigger] call_ensures(trial, (o,), c) && !all_have_medians(
                projections(c@),
            ),
        final(partition)@.len() == old(partition)@.len(),
{
    let ghost before = partition@;
    let mut best_partition: Vec<usize> = slice_to_vec(partition);
    let mut circle_quality: i64 = i64::MAX;
    let ghost mut trials: Seq<Trial> = Seq::empty();
    let mut o: usize = 0;
    assert(bests(trials) =~= Seq::<i64>::empty());
    while o < rounds
        invariant
            o <= rounds,
            before == old(partition)@,
            before.len() == graph@.len(),
            partition@ == before,
            best_partition@.len() == graph@.len(),
            mass(graph@) <= i64::MAX,
            forall|a: Double, b: Double| call_requires(plus, (a, b)),
            forall|a: Double, b: Double| call_requires(over, (a, b)),
            forall|x: usize| call_requires(trial, (x,)),
            forall|x: usize, c: Vec<Vec<Double>>| #[trigger]
                call_ensures(trial, (x,), c) ==> forall|r: int|
                    0 <= r < c@.len() ==> (#[trigger] c@[r])@.len() == graph@.len(),
            trials.len() == o,
            forall|x: int|
                0 <= x < o ==> plays(plus, over, trial, graph@, x as usize, #[trigger] trials[x]),
            circle_quality == smallest(bests(trials), o as int),
            separated(plus, over, trials, before, best_partition@),
        decreases rounds - o,
    {
        let circles: Vec<Vec<Double>> = trial(o);
        match sep_circle(graph, &circles, plus, over) {
            None => {
                return false;
            },
            Some((place, quality)) => {
                let ghost qualities = choose|qualities: Seq<i64>|
                    {
                        &&& #[trigger] are_qualities(
                            plus,
                            over,
                            graph@,
                            projections(circles@),
                            qualities,
                        )
                        &&& quality == smallest(qualities, qualities.len() as int)
                        &&& match place {
                            Some(r) => r < circles@.len() && first_smallest(
                                qualities,
                                qualities.len() as int,
                            ) == Some(r as int),
                            None => first_smallest(qualities, qualities.len() as int) is None,
                        }
                    };
                let ghost played = Trial { circles: projections(circles@), qualities };
                let ghost more = trials.push(played);
                let ghost held = best_partition@;
                proof {
                    law_first_smallest(qualities, qualities.len() as int);
                    assert(plays(plus, over, trial, graph@, o, played));
                    assert forall|x: int| 0 <= x < o + 1 implies plays(
                        plus,
                        over,
                        trial,
                        graph@,
                        x as usize,
                        #[trigger] more[x],
                    ) by {
                        if x < o {
                            assert(more[x] == trials[x]);
                        }
                    }
                    assert forall|x: int| 0 <= x < trials.len() implies #[trigger] bests(trials)[x]
                        == bests(more)[x] by {
                        assert(more[x] == trials[x]);
                    }
                    lemma_smallest_prefix(bests(trials), bests(more), o as int);
                    law_first_smallest(bests(trials), o as int);
                    assert(more[o as int] == played);
                    assert(bests(more)[o as int] == quality);
                }
                if quality < circle_quality {
                    match place {
                        Some(r) => {
                            circle_quality = quality;
                            assert(played.circles[r as int] == circles@[r as int]@);
                            assert(has_median(played.circles[r as int]));
                            perform_partition(
                                circles[r].as_slice(),
                                plus,
                                over,
                                best_partition.as_mut_slice(),
                            );
                            proof {
                                let median = choose|median: Double| #[trigger]
                                    is_median(plus, over, circles@[r as int]@, median)
                                        && best_partition@ == split(
                                        circles@[r as int]@,
                                        median,
                                        held,
                                    );
                                lemma_split_covers(
                                    circles@[r as int]@,
                                    median,
                                    held,
                                    before,
                                );
                                assert(first_smallest(bests(more), o + 1) == Some(o as int));
                                assert(is_median(plus, over, played.circles[r as int], median));
                                assert(separated(plus, over, more, before, best_partition@));
                            }
                        },
                        None => {},
                    }
                } else {
                    proof {
                        assert(first_smallest(bests(more), o + 1) == first_smallest(
                            bests(trials),
                            o as int,
                        ));
                        if let Some(x) = first_smallest(bests(trials), o as int) {
                            assert(more[x] == trials[x]);
                        }
                        assert(separated(plus, over, more, before, best_partition@));
                    }
                }
                proof {
                    trials = more;
                }
            },
        }
        o += 1;
    }
    let mut v: usize = 0;
    while v < partition.len()
        invariant
            v <= partition@.len(),
            partition@.len() == best_partition@.len(),
            forall|x: int| 0 <= x < v ==> partition@[x] == best_partition@[x],
        decreases partition@.len() - v,
    {
        partition[v] = best_partition[v];
        v += 1;
    }
    assert(partition@ == best_partition@);
    true
}

/// A split of all vertices does not depend on the partition before it.
proof fn lemma_split_covers(
    values: Seq<Double>,
    median: Double,
    part: Seq<usize>,
    other: Seq<usize>,
)
    requires
        values.len() == part.len(),
        part.len() == other.len(),
    ensures
        split(values, median, part) == split(values, median, other),
{
    assert(split(values, median, part) =~= split(values, median, other));
}

impl GeometricPartitioner {
    /// Partitions a graph by the best of several rounds of circles.
    ///
    /// The partition, the vertex weights and the graph have to be about the
    /// same number of vertices. It is an error if they are not, or if some
    /// projections have no median.
    pub fn partition<
    P: Fn(Double, Double) -> Double + Copy,
    O: Fn(Double, Double) -> Double + Copy,
    T: Fn(usize) -> Vec<Vec<Double>>,
>(
        &self,
        part_ids: &mut [usize],
        graph: &Graph,
        weights: &[Double],
        rounds: usize,
        trial: T,
        plus: P,
        over: O,
    ) -> (result: Result<(), Error>)
        requires
            length_verdict(
                old(part_ids)@.len() as int,
                weights@.len() as int,
                graph@.len() as int,
            ) is Ok ==> {
                &&& mass(graph@) <= i64::MAX
                &&& forall|a: Double, b: Double| call_requires(plus, (a, b))
                &&& forall|a: Double, b: Double| call_requires(over, (a, b))
                &&& forall|o: usize| call_requires(trial, (o,))
                &&& forall|o: usize, c: Vec<Vec<Double>>| #[trigger]
                    call_ensures(trial, (o,), c) ==> forall|r: int|
                        0 <= r < c@.len() ==> (#[trigger] c@[r])@.len() == graph@.len()
            },
        ensures
            match length_verdict(
                old(part_ids)@.len() as int,
                weights@.len() as int,
                graph@.len() as int,
            ) {
                Err(e) => result == Err::<(), Error>(e) && final(part_ids)@ == old(part_ids)@,
                Ok(_) => match result {
                    Ok(_) => exists|trials: Seq<Trial>|
                        {
                            &&& trials.len() == rounds
                            &&& forall|o: int|
                                0 <= o < rounds ==> plays(
                                    plus,
                                    over,
                                    trial,
                                    graph@,
                                    o as usize,
                                    #[trigger] trials[o],
                                )
                            &&& #[trigger] separated(
                                plus,
                                over,
                                trials,
                                old(part_ids)@,
                                final(part_ids)@,
                            )
                        },
                    Err(e) => {
                        &&& e == Error::NoMedian
                        &&& final(part_ids)@ == old(part_ids)@
                        &&& exists|o: usize, c: Vec<Vec<Double>>|
                            o < rounds && #[trigger] call_ensures(trial, (o,), c)
                                && !all_have_medians(projections(c@))
                    },
                },
            },
    {
        match check_lengths(part_ids.len(), weights.len(), graph.len()) {
            Err(e) => Err(e),
            Ok(_) => if geopart(graph, rounds, trial, plus, over, part_ids) {
                Ok(())
            } else {
                Err(Error::NoMedian)
            },
        }
    }
}

/// The indices are different numbers below `n`.
pub open spec fn is_sample(sample: Seq<usize>, n: nat) -> bool {
    &&& forall|i: int| 0 <= i < sample.len() ==> #[trigger] sample[i] < n
    &&& forall|i: int, j: int|
        0 <= i < j < sample.len() ==> #[trigger] sample[i] != #[trigger] sample[j]
}

/// Draws a random sample of indices of points, each at most once.
pub fn sample_indices(num_points: usize, sample_size: usize) -> (sample: Vec<usize>)
    requires
        sample_size <= num_points,
    ensures
        sample@.len() == sample_size,
        is_sample(sample@, num_points as nat),
{
    let mut indices: Vec<usize> = list_ascending(num_points);
    let ghost first = indices@;
    assert(first.no_duplicates());
    shuffle_with_thread_rng(&mut indices);
    proof {
        lemma_shuffle_visits_all(indices@, num_points as nat);
        first.lemma_multiset_has_no_duplicates();
        indices@.lemma_multiset_has_no_duplicates_conv();
    }
    indices.truncate(sample_size);
    indices
}

/// The number of points that a centerpoint is computed from: all of them, up
/// to a limit that grows with the dimension.
pub fn sample_limit(npoints: usize, dim: usize) -> (limit: usize)
    requires
        (dim + 3) * (dim + 3) * ((dim + 3) * (dim + 3)) <= usize::MAX,
    ensures
        limit == if npoints <= (dim + 3) * (dim + 3) * ((dim + 3) * (dim + 3)) {
            npoints as int
        } else {
            (dim + 3) * (dim + 3) * ((dim + 3) * (dim + 3))
        },
{
    proof {
        let d = dim + 3;
        assert(d * d >= d) by (nonlinear_arith)
            requires
                d >= 3,
        ;
        assert((d * d) * (d * d) >= d * d) by (nonlinear_arith)
            requires
                d * d >= 3,
        ;
    }
    let side: usize = dim + 3;
    let square: usize = side * side;
    let bound: usize = square * square;
    if npoints <= bound {
        npoints
    } else {
        bound
    }
}

/// One step of the reduction to a centerpoint: the points from `first` on are
/// replaced by their Radon point, which takes the place `slot`.
#[derive(Clone, Copy, Debug, PartialEq, Eq, Structural)]
pub struct RadonStep {
    /// The place of the first point.
    pub first: usize,
    /// The place of the Radon point.
    pub slot: usize,
}

/// Step number `k` of the reduction of a sample.
pub open spec fn radon_step(sample_size: int, dim: int, k: int) -> RadonStep {
    RadonStep { first: (k * (dim + 3)) as usize, slot: (sample_size + k) as usize }
}

/// The steps of a reduction work through a queue: the first starts with the
/// first point, each starts `dim + 3` points after the one before it, the Radon
/// points come right after the sample, one after the other, and a step is made
/// only if its first point is not the last one of the queue.
pub proof fn law_radon_steps_form_a_queue(sample_size: int, dim: int, k: int)
    requires
        sample_size >= 1,
        dim >= 0,
        k >= 0,
        (k + 1) * (dim + 3) <= usize::MAX,
        sample_size + k + 1 <= usize::MAX,
    ensures
        radon_step(sample_size, dim, 0).first == 0,
        radon_step(sample_size, dim, 0).slot == sample_size,
        radon_step(sample_size, dim, k + 1).first == radon_step(sample_size, dim, k).first + dim
            + 3,
        radon_step(sample_size, dim, k + 1).slot == radon_step(sample_size, dim, k).slot + 1,
        k * (dim + 2) < sample_size - 1 <==> radon_step(sample_size, dim, k).first < radon_step(
            sample_size,
            dim,
            k,
        ).slot - 1,
{
    lemma_radon_count(k, dim);
    assert(0 * (dim + 3) == 0) by (nonlinear_arith);
    assert(k * (dim + 3) >= 0) by (nonlinear_arith)
        requires
            k >= 0,
            dim >= 0,
    ;
}

proof fn lemma_radon_count(k: int, dim: int)
    requires
        k >= 0,
        dim >= 0,
    ensures
        k * (dim + 3) == k * (dim + 2) + k,
        (k + 1) * (dim + 3) == k * (dim + 3) + dim + 3,
        k <= k * (dim + 2),
{
    assert(k * (dim + 3) == k * (dim + 2) + k) by (nonlinear_arith);
    assert((k + 1) * (dim + 3) == k * (dim + 3) + dim + 3) by (nonlinear_arith);
    assert(k <= k * (dim + 2)) by (nonlinear_arith)
        requires
            k >= 0,
            dim >= 0,
    ;
}

/// The steps that reduce a sample to a centerpoint. Each step takes the next
/// `dim + 2` points of a queue and skips one more; its Radon point goes to the
/// end of the queue. The last point of the queue is the centerpoint.
#[verifier::spinoff_prover]
pub fn radon_steps(sample_size: usize, dim: usize) -> (steps: Vec<RadonStep>)
    requires
        sample_size >= 1,
        2 * sample_size + dim + 3 <= usize::MAX,
    ensures
        forall|k: int|
            0 <= k < steps@.len() ==> #[trigger] steps@[k] == radon_step(
                sample_size as int,
                dim as int,
                k,
            ) && k * (dim + 2) < sample_size - 1,
        steps@.len() * (dim + 2) >= sample_size - 1,
{
    let mut steps: Vec<RadonStep> = Vec::new();
    let mut head: usize = 0;
    let mut tail: usize = sample_size - 1;
    assert(0 * (dim + 3) == 0) by (nonlinear_arith);
    while head < tail
        invariant
            2 * sample_size + dim + 3 <= usize::MAX,
            sample_size >= 1,
            head == steps@.len() * (dim + 3),
            tail == sample_size - 1 + steps@.len(),
            steps@.len() <= sample_size,
            head <= 2 * sample_size + dim + 3,
            forall|k: int|
                0 <= k < steps@.len() ==> #[trigger] steps@[k] == radon_step(
                    sample_size as int,
                    dim as int,
                    k,
                ) && k * (dim + 2) < sample_size - 1,
        decreases sample_size + 2 - steps@.len(),
    {
        let ghost k = steps@.len() as int;
        let ghost before = steps@;
        proof {
            lemma_radon_count(k, dim as int);
            assert(k * (dim + 2) < sample_size - 1);
        }
        tail += 1;
        steps.push(RadonStep { first: head, slot: tail });
        head += dim + 3;
        proof {
            assert(steps@.len() == k + 1);
            assert(head == (k + 1) * (dim + 3));
            assert(steps@[k] == radon_step(sample_size as int, dim as int, k));
            assert forall|j: int| 0 <= j < steps@.len() implies #[trigger] steps@[j] == radon_step(
                sample_size as int,
                dim as int,
                j,
            ) && j * (dim + 2) < sample_size - 1 by {
                if j < k {
                    assert(steps@[j] == before[j]);
                }
            }
        }
    }
    proof {
        lemma_radon_count(steps@.len() as int, dim as int);
    }
    steps
}

/// The places among the first `k` of the numbers that are positive, in order.
pub open spec fn positives(values: Seq<Double>, k: int) -> Seq<usize>
    decreases k,
{
    if k <= 0 {
        Seq::empty()
    } else if (Double { bits: 0 }).lt(values[k - 1]) {
        positives(values, k - 1).push((k - 1) as usize)
    } else {
        positives(values, k - 1)
    }
}

/// Finds the positive numbers of a list: the points with a positive
/// coefficient, or the singular values that count towards the rank.
pub fn positive_places(values: &[Double]) -> (places: Vec<usize>)
    ensures
        places@ == positives(values@, values@.len() as int),
{
    let zero: Double = Double::zero();
    let mut places: Vec<usize> = Vec::new();
    let mut i: usize = 0;
    while i < values.len()
        invariant
            i <= values@.len(),
            zero == (Double { bits: 0 }),
            places@ == positives(values@, i as int),
        decreases values@.len() - i,
    {
        if zero.less(&values[i]) {
            places.push(i);
        }
        i += 1;
    }
    places
}

} // verus!
