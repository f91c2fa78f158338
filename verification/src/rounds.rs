//! The Jet partitioner, round by round.
//!
//! The arithmetic on doubles belongs to the caller, who hands it in as
//! functions. Whatever they return, the rounds end, and the best partition
//! never gets worse.

use crate::arithmetic::Arithmetic;
use crate::connectivity::strength;
use crate::double::Double;
use crate::error::{check_lengths, length_verdict, Error};
use crate::jet::{number_of_partitions, rebalanced, JetPartitioner, JetState, Routine};
use crate::rebalance::{all_housed, picks_fit, Load};
use crate::refine::{choices_tabled, refinement};
use crate::relocate::{follows, relocated};
use crate::slots::SLOTS_PER_PART;
use crate::topology::{cut, fits, Adjacency, Graph};
use vstd::prelude::*;
use vstd::slice::slice_to_vec;

verus! {

impl<I, P, N, T, O, W, C, F> Arithmetic<I, P, N, T, O, W, C, F> where
    I: Fn(usize, &Vec<usize>, &[Double]) -> Double + Copy,
    P: Fn(Double, Double) -> Double + Copy,
    N: Fn(Double, Double) -> Double + Copy,
    T: Fn(Double, Double) -> Double + Copy,
    O: Fn(Double, Double) -> Double + Copy,
    W: Fn(i64) -> Double + Copy,
    C: Fn(usize) -> Double + Copy,
    F: Fn(Double) -> i64 + Copy,
 {
    /// The allowances, each the filter ratio times the connectivity of a vertex
    /// to its own part, may come out as `allowance`.
    pub open spec fn allows(
        &self,
        filter_ratio: Double,
        part: Seq<usize>,
        c: Seq<Map<usize, i64>>,
        allowance: Seq<i64>,
    ) -> bool {
        &&& allowance.len() == part.len()
        &&& forall|v: int|
            0 <= v < allowance.len() ==> self.shares(
                filter_ratio,
                strength(c, v, part[v]) as i64,
                #[trigger] allowance[v],
            )
    }

    /// The state `next` comes from `state` by the moves of a round: of a
    /// refinement if the partition is balanced, and of a rebalancing
    /// otherwise.
    pub open spec fn advances(
        &self,
        parts: usize,
        weights: &[Double],
        state: JetState<'_>,
        next: JetState<'_>,
    ) -> bool {
        if state.balanced() {
            exists|allowance: Seq<i64>| #[trigger]
                self.allows(
                    state.configuration().filter_ratio,
                    state.partition(),
                    state.connectivity(),
                    allowance,
                ) && choices_tabled(
                    state.rows(),
                    state.partition(),
                    state.connectivity(),
                    state.locks(),
                ) && ({
                    let moves = refinement(
                        state.rows(),
                        state.partition(),
                        state.connectivity(),
                        state.locks(),
                        allowance,
                    );
                    &&& next.partition() == relocated(
                        state.partition(),
                        moves,
                        moves.len() as int,
                    )
                    &&& follows(
                        state.rows(),
                        state.partition(),
                        moves,
                        state.connectivity(),
                        next.connectivity(),
                    )
                    &&& forall|v: usize| #[trigger]
                        next.locks().contains(v) <==> exists|j: int|
                            0 <= j < moves.len() && (#[trigger] moves[j]).vertex == v
                })
        } else {
            next.locks() == state.locks() && exists|load: Load, picks: Seq<usize>|
                self.loads(
                    state.configuration().balance_factor,
                    parts,
                    state.partition(),
                    weights@,
                    load,
                ) && #[trigger] picks_fit(
                    load,
                    picks,
                    state.rows().len(),
                ) && all_housed(
                    state.rows(),
                    state.partition(),
                    weights@,
                    state.connectivity(),
                    load,
                ) && rebalanced(self.plus, state, next, weights@, load, picks)
        }
    }

    /// The next round may break off: the table has no entry for a part that a
    /// vertex can move to, or there is no light part for one that has to leave.
    pub open spec fn may_break_off(
        &self,
        parts: usize,
        weights: &[Double],
        state: JetState<'_>,
    ) -> bool {
        if state.balanced() {
            !choices_tabled(
                state.rows(),
                state.partition(),
                state.connectivity(),
                state.locks(),
            )
        } else {
            exists|load: Load| #[trigger]
                self.loads(
                    state.configuration().balance_factor,
                    parts,
                    state.partition(),
                    weights@,
                    load,
                ) && !all_housed(
                    state.rows(),
                    state.partition(),
                    weights@,
                    state.connectivity(),
                    load,
                )
        }
    }

    /// The state `next` comes from `state` by the end of a round.
    pub open spec fn settles(
        &self,
        parts: usize,
        weights: &[Double],
        state: JetState<'_>,
        next: JetState<'_>,
    ) -> bool {
        let now = cut(state.rows(), state.partition()) as i64;
        let best = cut(state.rows(), state.best_partition()) as i64;
        exists|d: Double, e: Double, b: Double|
            self.measures(parts, state.partition(), weights, d) && #[trigger] call_ensures(
                self.widen,
                (now,),
                e,
            ) && #[trigger] self.scales(
                state.configuration().tolerance_factor,
                best,
                b,
            ) && #[trigger] state.settles_to(
                d,
                e,
                b,
                &next,
            )
    }

    /// The state `next` comes from `state` by a whole round.
    #[verifier::opaque]
    pub open spec fn round(
        &self,
        parts: usize,
        weights: &[Double],
        state: JetState<'_>,
        next: JetState<'_>,
    ) -> bool {
        exists|middle: JetState<'_>|
            middle.well_formed() && middle.same_standing(&state) && #[trigger] self.advances(
                parts,
                weights,
                state,
                middle,
            ) && self.settles(parts, weights, middle, next)
    }

    /// State number `i` comes from the one before it by a round, and the round
    /// was due.
    pub open spec fn step(
        &self,
        parts: usize,
        weights: &[Double],
        states: Seq<JetState<'_>>,
        i: int,
    ) -> bool {
        states[i - 1].rounds() < states[i - 1].configuration().iterations && self.round(
            parts,
            weights,
            states[i - 1],
            states[i],
        )
    }

    /// Each of the states but the first comes from the one before it by a
    /// round.
    pub open spec fn run(
        &self,
        parts: usize,
        weights: &[Double],
        states: Seq<JetState<'_>>,
    ) -> bool {
        &&& states.len() >= 1
        &&& forall|i: int| 1 <= i < states.len() ==> #[trigger] self.step(parts, weights, states, i)
    }

    /// What the partitioner makes of a partition: the best partition at the
    /// end of a run of rounds, or the partition itself if a round breaks off.
    pub open spec fn outcome(
        &self,
        settings: JetPartitioner,
        weights: &[Double],
        rows: Adjacency,
        before: Seq<usize>,
        after: Seq<usize>,
        done: bool,
    ) -> bool {
        let parts = before.to_set().len() as usize;
        exists|states: Seq<JetState<'_>>, d: Double| #[trigger]
            self.run(parts, weights, states) && #[trigger] self.measures(
                parts,
                before,
                weights,
                d,
            ) && states[0].starts(settings, rows, before, d) && (if done {
                &&& states.last().rounds() >= settings.iterations
                &&& after == states.last().best_partition()
            } else {
                &&& states.last().rounds() < settings.iterations
                &&& self.may_break_off(parts, weights, states.last())
                &&& after == before
            })
    }

    #[verifier::spinoff_prover]
    proof fn lemma_run_grows(
        &self,
        parts: usize,
        weights: &[Double],
        states: Seq<JetState<'_>>,
        next: JetState<'_>,
    )
        requires
            self.run(parts, weights, states),
            states.last().rounds() < states.last().configuration().iterations,
            self.round(parts, weights, states.last(), next),
        ensures
            self.run(parts, weights, states.push(next)),
            states.push(next)[0] == states[0],
            states.push(next).last() == next,
    {
        let longer = states.push(next);
        assert forall|i: int| 1 <= i < longer.len() implies #[trigger] self.step(
            parts,
            weights,
            longer,
            i,
        ) by {
            if i < states.len() {
                assert(self.step(parts, weights, states, i));
                assert(longer[i] == states[i]);
                assert(longer[i - 1] == states[i - 1]);
            }
        }
    }

    /// The allowances of all vertices.
    fn allowances(&self, state: &JetState<'_>) -> (allowance: Vec<i64>)
        requires
            state.well_formed(),
            self.usable(),
        ensures
            self.allows(
                state.configuration().filter_ratio,
                state.partition(),
                state.connectivity(),
                allowance@,
            ),
            allowance@.len() == state.rows().len(),
    {
        proof {
            state.lemma_well_formed();
        }
        let own: Vec<i64> = state.own_connectivity();
        let ratio: Double = state.settings().filter_ratio;
        let mut allowance: Vec<i64> = Vec::new();
        while allowance.len() < own.len()
            invariant
                self.usable(),
                ratio == state.configuration().filter_ratio,
                own@.len() == state.rows().len(),
                allowance@.len() <= own@.len(),
                forall|v: int|
                    0 <= v < own@.len() ==> #[trigger] own@[v] == strength(
                        state.connectivity(),
                        v,
                        state.partition()[v],
                    ),
                forall|v: int|
                    0 <= v < allowance@.len() ==> self.shares(
                        ratio,
                        strength(state.connectivity(), v, state.partition()[v]) as i64,
                        #[trigger] allowance@[v],
                    ),
            decreases own@.len() - allowance@.len(),
        {
            let v: usize = allowance.len();
            assert(own@[v as int] == strength(
                state.connectivity(),
                v as int,
                state.partition()[v as int],
            ));
            let a: i64 = self.share(ratio, own[v]);
            allowance.push(a);
        }
        allowance
    }

    /// The moves of a round. The result is false, and nothing changes, if the
    /// round breaks off.
    fn advance(&self, parts: usize, weights: &[Double], state: &mut JetState<'_>) -> (done: bool)
        requires
            self.usable(),
            old(state).well_formed(),
            old(state).rows().len() == weights@.len(),
            parts * SLOTS_PER_PART <= usize::MAX,
        ensures
            final(state).well_formed(),
            final(state).same_standing(old(state)),
            done ==> self.advances(parts, weights, *old(state), *final(state)),
            !done ==> *final(state) == *old(state) && self.may_break_off(
                parts,
                weights,
                *old(state),
            ),
    {
        proof {
            state.lemma_well_formed();
        }
        match state.routine() {
            Routine::Refine => {
                let allowance: Vec<i64> = self.allowances(&*state);
                state.refine(allowance.as_slice())
            },
            Routine::Rebalance => {
                let load: Load = self.load(
                    state.settings().balance_factor,
                    parts,
                    state.current_partition().as_slice(),
                    weights,
                );
                state.rebalance_at_random(weights, &load, self.plus)
            },
        }
    }

    /// The end of a round.
    fn conclude(&self, parts: usize, weights: &[Double], state: &mut JetState<'_>)
        requires
            self.usable(),
            old(state).well_formed(),
            old(state).rounds() < old(state).configuration().iterations,
        ensures
            final(state).well_formed(),
            final(state).rows() == old(state).rows(),
            final(state).configuration() == old(state).configuration(),
            self.settles(parts, weights, *old(state), *final(state)),
            decreases_to!(
                old(state).to_balance(), old(state).to_even_out(), old(state).to_cut(),
                old(state).to_wait() =>
                final(state).to_balance(), final(state).to_even_out(), final(state).to_cut(),
                final(state).to_wait()
            ),
    {
        let ghost middle = *state;
        let imbalance: I = self.imbalance;
        let widen: W = self.widen;
        let reading: Double = imbalance(parts, state.current_partition(), weights);
        assert(self.measures(parts, middle.partition(), weights, reading));
        let (now, best) = state.edge_cuts();
        let edge_cut: Double = widen(now);
        let bound: Double = self.scale(state.settings().tolerance_factor, best);
        state.settle(reading, edge_cut, bound);
        proof {
            assert(cut(middle.rows(), middle.partition()) as i64 == now);
            assert(cut(middle.rows(), middle.best_partition()) as i64 == best);
            assert(middle.settles_to(reading, edge_cut, bound, &*state));
            assert(call_ensures(widen, (now,), edge_cut));
            assert(self.scales(middle.configuration().tolerance_factor, best, bound));
            assert(self.settles(parts, weights, middle, *state));
        }
    }
}

/// Improves a partition, round by round, until no marked improvement has come
/// for as many rounds as the settings say.
///
/// The result is false, and the partition is left as it was, if a round breaks
/// off: if the connectivity table has no entry for a part that a vertex can
/// move to, or if there is no light part for a vertex that has to leave.
pub fn jet_partitioner<I, P, N, T, O, W, C, F>(
    settings: JetPartitioner,
    partition: &mut [usize],
    weights: &[Double],
    graph: &Graph,
    arithmetic: &Arithmetic<I, P, N, T, O, W, C, F>,
) -> (done: bool) where
    I: Fn(usize, &Vec<usize>, &[Double]) -> Double + Copy,
    P: Fn(Double, Double) -> Double + Copy,
    N: Fn(Double, Double) -> Double + Copy,
    T: Fn(Double, Double) -> Double + Copy,
    O: Fn(Double, Double) -> Double + Copy,
    W: Fn(i64) -> Double + Copy,
    C: Fn(usize) -> Double + Copy,
    F: Fn(Double) -> i64 + Copy,

    requires
        graph@.len() == old(partition)@.len(),
        graph@.len() == weights@.len(),
        fits(graph@),
        graph@.len() * SLOTS_PER_PART <= usize::MAX,
        arithmetic.usable(),
    ensures
        arithmetic.outcome(
            settings,
            weights,
            graph@,
            old(partition)@,
            final(partition)@,
            done,
        ),
        final(partition)@.len() == old(partition)@.len(),
{
    let ghost before = partition@;
    let first: Vec<usize> = slice_to_vec(partition);
    let parts: usize = number_of_partitions(first.as_slice());
    proof {
        before.lemma_cardinality_of_set();
    }
    let imbalance: I = arithmetic.imbalance;
    let d: Double = imbalance(parts, &first, weights);
    assert(arithmetic.measures(parts, before, weights, d));
    let mut state: JetState<'_> = JetState::new(settings, graph, first.as_slice(), d);
    let ghost mut states: Seq<JetState<'_>> = seq![state];
    while state.is_running()
        invariant
            graph@.len() == partition@.len(),
            graph@.len() == weights@.len(),
            partition@ == before,
            before == old(partition)@,
            parts == before.to_set().len(),
            parts * SLOTS_PER_PART <= usize::MAX,
            arithmetic.usable(),
            arithmetic.measures(parts, before, weights, d),
            arithmetic.run(parts, weights, states),
            states[0].starts(settings, graph@, before, d),
            states.last() == state,
            state.well_formed(),
            state.rows() == graph@,
            state.configuration() == settings,
        decreases state.to_balance(), state.to_even_out(), state.to_cut(), state.to_wait(),
    {
        let ghost earlier = state;
        if !arithmetic.advance(parts, weights, &mut state) {
            assert(parts == before.to_set().len() as usize);
            assert(arithmetic.run(parts, weights, states));
            return false;
        }
        arithmetic.conclude(parts, weights, &mut state);
        proof {
            assert(arithmetic.round(parts, weights, earlier, state)) by {
                reveal(Arithmetic::round);
            }
            arithmetic.lemma_run_grows(parts, weights, states, state);
            states = states.push(state);
        }
    }
    proof {
        state.lemma_well_formed();
    }
    let best: Vec<usize> = state.finish();
    let mut v: usize = 0;
    while v < partition.len()
        invariant
            v <= partition@.len(),
            partition@.len() == best@.len(),
            forall|x: int| 0 <= x < v ==> partition@[x] == best@[x],
        decreases partition@.len() - v,
    {
        partition[v] = best[v];
        v += 1;
    }
    assert(partition@ == best@);
    assert(parts == before.to_set().len() as usize);
    assert(arithmetic.run(parts, weights, states));
    true
}

impl JetPartitioner {
    /// Improves a partition with these settings.
    ///
    /// The partition, the vertex weights and the graph have to be about the
    /// same number of vertices. It is an error if they are not, or if a round
    /// breaks off; the partition is then left as it was.
    pub fn partition<I, P, N, T, O, W, C, F>(
        &self,
        part_ids: &mut [usize],
        graph: &Graph,
        weights: &[Double],
        arithmetic: &Arithmetic<I, P, N, T, O, W, C, F>,
    ) -> (result: Result<(), Error>) where
        I: Fn(usize, &Vec<usize>, &[Double]) -> Double + Copy,
        P: Fn(Double, Double) -> Double + Copy,
        N: Fn(Double, Double) -> Double + Copy,
        T: Fn(Double, Double) -> Double + Copy,
        O: Fn(Double, Double) -> Double + Copy,
        W: Fn(i64) -> Double + Copy,
        C: Fn(usize) -> Double + Copy,
        F: Fn(Double) -> i64 + Copy,

        requires
            length_verdict(
                old(part_ids)@.len() as int,
                weights@.len() as int,
                graph@.len() as int,
            ) is Ok ==> {
                &&& fits(graph@)
                &&& graph@.len() * SLOTS_PER_PART <= usize::MAX
                &&& arithmetic.usable()
            },
        ensures
            match length_verdict(
                old(part_ids)@.len() as int,
                weights@.len() as int,
                graph@.len() as int,
            ) {
                Err(e) => result == Err::<(), Error>(e) && final(part_ids)@ == old(part_ids)@,
                Ok(_) => (result is Ok || result == Err::<(), Error>(Error::MissingEntry))
                    && arithmetic.outcome(
                    *self,
                    weights,
                    graph@,
                    old(part_ids)@,
                    final(part_ids)@,
                    result is Ok,
                ),
            },
    {
        match check_lengths(part_ids.len(), weights.len(), graph.len()) {
            Err(e) => Err(e),
            Ok(_) => if jet_partitioner(*self, part_ids, weights, graph, arithmetic) {
                Ok(())
            } else {
                Err(Error::MissingEntry)
            },
        }
    }
}

} // verus!
