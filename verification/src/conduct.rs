//! What a run of the Jet partitioner consists of, round by round, and what comes
//! of it.

use crate::arithmetic::Arithmetic;
use crate::connectivity::{tabulates, Move};
use crate::double::Double;
use crate::jet::{JetPartitioner, JetState};
use crate::propagation::{law_refinement_needs_entries, moves_vertex};
use crate::rebalance::{all_housed, picks_fit, rebalances, Load};
use crate::refine::{choices_tabled, law_refinement_respects_locks, refinement};
use crate::relocate::{follows, relocated};
use crate::shedding::{has_to_leave, law_rebalancing_needs_light_parts, light_enough};
use crate::topology::{cut, Adjacency};
use crate::tracking::{distinct_vertices, lemma_relocated_len};
use vstd::prelude::*;

verus! {

/// The table has no entry for the part of a neighbor, another one than its own,
/// of a vertex that is not locked.
pub open spec fn lacks_an_entry(state: JetState<'_>) -> bool {
    exists|v: int, k: int|
        {
            &&& 0 <= v < state.rows().len()
            &&& !state.locks().contains(v as usize)
            &&& 0 <= k < state.rows()[v].len()
            &&& state.partition()[(#[trigger] state.rows()[v][k]).0 as int] != state.partition()[v]
            &&& !state.connectivity()[v].contains_key(
                state.partition()[state.rows()[v][k].0 as int],
            )
        }
}

/// A vertex has to leave its part and no part is light, or the table has no entry
/// for the light part of one of its neighbors.
pub open spec fn lacks_a_refuge(state: JetState<'_>, weights: Seq<Double>, load: Load) -> bool {
    exists|v: int|
        {
            &&& 0 <= v < state.rows().len()
            &&& #[trigger] has_to_leave(state.partition(), weights, load, v)
            &&& (!exists|p: usize| #[trigger] light_enough(load, p)) || exists|k: int|
                0 <= k < state.rows()[v].len() && light_enough(
                    load,
                    state.partition()[(#[trigger] state.rows()[v][k]).0 as int],
                ) && !state.connectivity()[v].contains_key(
                    state.partition()[state.rows()[v][k].0 as int],
                )
        }
}

/// Applying moves puts each vertex that is moved into the part of its move and
/// leaves all others where they are. No vertex may be moved twice.
pub proof fn law_moves_are_applied(part: Seq<usize>, moves: Seq<Move>, n: int)
    requires
        0 <= n <= moves.len(),
        distinct_vertices(moves),
        forall|j: int| 0 <= j < moves.len() ==> (#[trigger] moves[j]).vertex < part.len(),
    ensures
        relocated(part, moves, n).len() == part.len(),
        forall|j: int|
            0 <= j < n ==> relocated(part, moves, n)[(#[trigger] moves[j]).vertex as int]
                == moves[j].partition_id,
        forall|v: int|
            0 <= v < part.len() && (forall|j: int|
                0 <= j < n ==> (#[trigger] moves[j]).vertex != v) ==> #[trigger] relocated(
                part,
                moves,
                n,
            )[v] == part[v],
    decreases n,
{
    lemma_relocated_len(part, moves, n);
    if n > 0 {
        law_moves_are_applied(part, moves, n - 1);
        let before = relocated(part, moves, n - 1);
        let after = relocated(part, moves, n);
        let last = moves[n - 1];
        assert(last.vertex < part.len());
        assert forall|j: int| 0 <= j < n implies after[(#[trigger] moves[j]).vertex as int]
            == moves[j].partition_id by {
            if j < n - 1 {
                assert(moves[j].vertex != moves[n - 1].vertex);
                assert(before[moves[j].vertex as int] == moves[j].partition_id);
            }
        }
        assert forall|v: int|
            0 <= v < part.len() && (forall|j: int|
                0 <= j < n ==> (#[trigger] moves[j]).vertex != v) implies #[trigger] after[v]
            == part[v] by {
            assert(moves[n - 1].vertex != v);
            assert(before[v] == part[v]);
        }
    }
}

/// Of several moves of a vertex the last one decides where it ends.
pub proof fn law_last_move_decides(part: Seq<usize>, moves: Seq<Move>, n: int, v: int, j: int)
    requires
        0 <= j < n <= moves.len(),
        0 <= v < part.len(),
        moves[j].vertex == v,
        forall|x: int| 0 <= x < moves.len() ==> (#[trigger] moves[x]).vertex < part.len(),
        forall|i: int| j < i < n ==> (#[trigger] moves[i]).vertex != v,
    ensures
        relocated(part, moves, n)[v] == moves[j].partition_id,
    decreases n,
{
    lemma_relocated_len(part, moves, n - 1);
    if j < n - 1 {
        law_last_move_decides(part, moves, n - 1, v, j);
        assert(moves[n - 1].vertex != v);
    }
}

impl<I, P, N, T, O, W, C, F> Arithmetic<I, P, N, T, O, W, C, F> where
    I: Fn(usize, &Vec<usize>, &[Double]) -> Double + Copy,
    P: Fn(Double, Double) -> Double + Copy,
    N: Fn(Double, Double) -> Double + Copy,
    T: Fn(Double, Double) -> Double + Copy,
    O: Fn(Double, Double) -> Double + Copy,
    W: Fn(i64) -> Double + Copy,
    C: Fn(usize) -> Double + Copy,
    F: Fn(Double) -> i64 + Copy,
 {
    /// An allowance is the filter ratio times the connectivity of the vertex to
    /// its own part, rounded down.
    pub proof fn law_allowance_is_rounded_down(
        &self,
        filter_ratio: Double,
        part: Seq<usize>,
        c: Seq<Map<usize, i64>>,
        allowance: Seq<i64>,
        v: int,
    )
        requires
            self.allows(filter_ratio, part, c, allowance),
            0 <= v < part.len(),
        ensures
            exists|wide: Double, product: Double|
                {
                    &&& #[trigger] call_ensures(
                        self.widen,
                        (crate::connectivity::strength(c, v, part[v]) as i64,),
                        wide,
                    )
                    &&& #[trigger] call_ensures(self.times, (filter_ratio, wide), product)
                    &&& call_ensures(self.floor, (product,), allowance[v])
                },
    {
        let own = crate::connectivity::strength(c, v, part[v]) as i64;
        assert(self.shares(filter_ratio, own, allowance[v]));
        let product = choose|product: Double| #[trigger]
            self.scales(filter_ratio, own, product) && call_ensures(
                self.floor,
                (product,),
                allowance[v],
            );
        let wide = choose|wide: Double| #[trigger]
            call_ensures(self.widen, (own,), wide) && call_ensures(
                self.times,
                (filter_ratio, wide),
                product,
            );
        assert(call_ensures(self.widen, (own,), wide));
    }

    /// The imbalance is that of the partition itself, by the weights given and for
    /// as many parts as given.
    pub proof fn law_imbalance_is_measured(
        &self,
        parts: usize,
        part: Seq<usize>,
        weights: &[Double],
        d: Double,
    )
        requires
            self.measures(parts, part, weights, d),
        ensures
            exists|p: Vec<usize>|
                p@.len() == part.len() && (forall|v: int|
                    0 <= v < part.len() ==> p@[v] == #[trigger] part[v]) && #[trigger] call_ensures(
                    self.imbalance,
                    (parts, &p, weights),
                    d,
                ),
    {
    }

    /// A round refines a partition that is balanced: it applies the moves of a
    /// propagation step in which the vertices that the last one moved are locked,
    /// and locks those that it moves. Any other partition it rebalances, and the
    /// locks stay.
    pub proof fn law_round_applies_moves(
        &self,
        parts: usize,
        weights: &[Double],
        state: JetState<'_>,
        next: JetState<'_>,
    )
        requires
            self.round(parts, weights, state, next),
        ensures
            next.rows() == state.rows(),
            next.configuration() == state.configuration(),
            state.imbalance().lt(state.configuration().balance_factor) ==> exists|
                allowance: Seq<i64>,
            |
                {
                    let moves = refinement(
                        state.rows(),
                        state.partition(),
                        state.connectivity(),
                        state.locks(),
                        allowance,
                    );
                    &&& #[trigger] self.allows(
                        state.configuration().filter_ratio,
                        state.partition(),
                        state.connectivity(),
                        allowance,
                    )
                    &&& choices_tabled(
                        state.rows(),
                        state.partition(),
                        state.connectivity(),
                        state.locks(),
                    )
                    &&& next.partition() == relocated(
                        state.partition(),
                        moves,
                        moves.len() as int,
                    )
                    &&& follows(
                        state.rows(),
                        state.partition(),
                        moves,
                        state.connectivity(),
                        next.connectivity(),
                    )
                    &&& forall|v: usize| #[trigger]
                        next.locks().contains(v) <==> moves_vertex(moves, v)
                },
            !state.imbalance().lt(state.configuration().balance_factor) ==> next.locks()
                == state.locks() && exists|load: Load, picks: Seq<usize>, moves: Seq<Move>|
                {
                    &&& self.loads(
                        state.configuration().balance_factor,
                        parts,
                        state.partition(),
                        weights@,
                        load,
                    )
                    &&& picks_fit(load, picks, state.rows().len())
                    &&& all_housed(
                        state.rows(),
                        state.partition(),
                        weights@,
                        state.connectivity(),
                        load,
                    )
                    &&& #[trigger] rebalances(
                        self.plus,
                        state.rows(),
                        state.partition(),
                        weights@,
                        state.connectivity(),
                        load,
                        picks,
                        moves,
                    )
                    &&& next.partition() == relocated(
                        state.partition(),
                        moves,
                        moves.len() as int,
                    )
                    &&& follows(
                        state.rows(),
                        state.partition(),
                        moves,
                        state.connectivity(),
                        next.connectivity(),
                    )
                },
    {
        self.lemma_round(parts, weights, state, next);
        let (middle, readings) = choose|
            middle: JetState<'_>,
            readings: (Double, Double, Double),
        | #[trigger]
            self.round_by(parts, weights, state, middle, readings, next);
        assert(middle.settles_to(readings.0, readings.1, readings.2, &next));
        let rows = state.rows();
        let part = state.partition();
        let c = state.connectivity();
        if state.balanced() {
            let allowance = choose|allowance: Seq<i64>| #[trigger]
                self.allows(state.configuration().filter_ratio, part, c, allowance)
                    && choices_tabled(rows, part, c, state.locks()) && ({
                    let moves = refinement(rows, part, c, state.locks(), allowance);
                    &&& middle.partition() == relocated(part, moves, moves.len() as int)
                    &&& follows(rows, part, moves, c, middle.connectivity())
                    &&& forall|v: usize| #[trigger]
                        middle.locks().contains(v) <==> exists|j: int|
                            0 <= j < moves.len() && (#[trigger] moves[j]).vertex == v
                });
            assert(self.allows(state.configuration().filter_ratio, part, c, allowance));
            let moves = refinement(rows, part, c, state.locks(), allowance);
            assert forall|v: usize| #[trigger] next.locks().contains(v) <==> moves_vertex(
                moves,
                v,
            ) by {
                assert(middle.locks().contains(v) <==> moves_vertex(moves, v));
            }
        } else {
            let (load, picks) = choose|load: Load, picks: Seq<usize>|
                self.loads(
                    state.configuration().balance_factor,
                    parts,
                    part,
                    weights@,
                    load,
                ) && #[trigger] picks_fit(load, picks, rows.len()) && all_housed(
                    rows,
                    part,
                    weights@,
                    c,
                    load,
                ) && crate::jet::rebalanced(self.plus, state, middle, weights@, load, picks);
            let moves = choose|moves: Seq<Move>| #[trigger]
                rebalances(self.plus, rows, part, weights@, c, load, picks, moves)
                    && middle.partition() == relocated(part, moves, moves.len() as int) && follows(
                    rows,
                    part,
                    moves,
                    c,
                    middle.connectivity(),
                );
            assert(rebalances(self.plus, rows, part, weights@, c, load, picks, moves));
        }
    }

    /// How a round ends. The imbalance of the new partition is measured. If it is
    /// balanced it becomes the best one if its edge cut is smaller than that of
    /// the best one so far, and any other if it is less imbalanced. The rounds
    /// are counted from the start again if the best one changes, unless the new
    /// one is balanced and its edge cut is not below the tolerance factor times
    /// the best one so far; any other round is counted.
    pub proof fn law_round_keeps_the_better(
        &self,
        parts: usize,
        weights: &[Double],
        state: JetState<'_>,
        next: JetState<'_>,
    )
        requires
            self.round(parts, weights, state, next),
        ensures
            exists|edge_cut: Double, wide: Double, bound: Double|
                {
                    let limit = state.configuration().balance_factor;
                    let now = cut(state.rows(), next.partition());
                    let best = cut(state.rows(), state.best_partition());
                    let d = next.imbalance();
                    let better = if d.lt(limit) {
                        now < best
                    } else {
                        d.lt(state.least_imbalance())
                    };
                    &&& self.measures(parts, next.partition(), weights, d)
                    &&& #[trigger] call_ensures(
                        self.widen,
                        (cut(state.rows(), next.partition()) as i64,),
                        edge_cut,
                    )
                    &&& #[trigger] call_ensures(
                        self.widen,
                        (cut(state.rows(), state.best_partition()) as i64,),
                        wide,
                    )
                    &&& #[trigger] call_ensures(
                        self.times,
                        (state.configuration().tolerance_factor, wide),
                        bound,
                    )
                    &&& next.best_partition() == if better {
                        next.partition()
                    } else {
                        state.best_partition()
                    }
                    &&& next.least_imbalance() == if better {
                        d
                    } else {
                        state.least_imbalance()
                    }
                    &&& next.rounds() == if better && (d.lt(limit) ==> edge_cut.lt(bound)) {
                        0
                    } else {
                        state.rounds() + 1
                    }
                },
    {
        self.lemma_round(parts, weights, state, next);
        let (middle, readings) = choose|
            middle: JetState<'_>,
            readings: (Double, Double, Double),
        | #[trigger]
            self.round_by(parts, weights, state, middle, readings, next);
        let (d, edge_cut, bound) = readings;
        assert(middle.settles_to(d, edge_cut, bound, &next));
        let best = cut(middle.rows(), middle.best_partition()) as i64;
        let wide = choose|wide: Double| #[trigger]
            call_ensures(self.widen, (best,), wide) && call_ensures(
                self.times,
                (middle.configuration().tolerance_factor, wide),
                bound,
            );
        assert(call_ensures(
            self.widen,
            (cut(state.rows(), state.best_partition()) as i64,),
            wide,
        ));
        assert(call_ensures(
            self.times,
            (state.configuration().tolerance_factor, wide),
            bound,
        ));
        assert(call_ensures(
            self.widen,
            (cut(state.rows(), next.partition()) as i64,),
            edge_cut,
        ));
    }

    /// What the partitioner makes of a partition is the best partition at the end
    /// of a run: it starts from the partition, with no vertex locked and the
    /// table of the partition, goes on round by round as long as the rounds
    /// counted are fewer than the settings say, and not any longer.
    pub proof fn law_outcome_is_a_run(
        &self,
        settings: JetPartitioner,
        weights: &[Double],
        rows: Adjacency,
        before: Seq<usize>,
        after: Seq<usize>,
    )
        requires
            self.outcome(settings, weights, rows, before, after, true),
        ensures
            exists|states: Seq<JetState<'_>>|
                {
                    &&& states.len() >= 1
                    &&& states[0].rows() == rows
                    &&& states[0].configuration() == settings
                    &&& states[0].partition() == before
                    &&& states[0].best_partition() == before
                    &&& states[0].rounds() == 0
                    &&& states[0].locks() == Set::<usize>::empty()
                    &&& tabulates(rows, before, states[0].connectivity())
                    &&& states[0].imbalance() == states[0].least_imbalance()
                    &&& self.measures(
                        before.to_set().len() as usize,
                        before,
                        weights,
                        states[0].imbalance(),
                    )
                    &&& #[trigger] self.run(before.to_set().len() as usize, weights, states)
                    &&& forall|i: int|
                        0 <= i < states.len() - 1 ==> #[trigger] states[i].rounds()
                            < settings.iterations
                    &&& forall|i: int, next: int|
                        0 <= i < states.len() - 1 && next == i + 1 ==> #[trigger] self.round(
                            before.to_set().len() as usize,
                            weights,
                            states[i],
                            states[next],
                        )
                    &&& states.last().rounds() >= settings.iterations
                    &&& after == states.last().best_partition()
                },
    {
        let parts = before.to_set().len() as usize;
        let (states, d) = choose|states: Seq<JetState<'_>>, d: Double| #[trigger]
            self.run(parts, weights, states) && #[trigger] self.measures(
                parts,
                before,
                weights,
                d,
            ) && states[0].starts(settings, rows, before, d) && states.last().rounds()
                >= settings.iterations && after == states.last().best_partition();
        self.lemma_run_is_rounds(parts, weights, states);
        assert(self.run(parts, weights, states));
    }

    /// Where the partitioner breaks off, the partition is left as it was, and
    /// there is a reason: after some rounds, and before enough of them are counted,
    /// either the partition is balanced and the table has no entry for the part of
    /// a neighbor that a vertex could move to, or it is not balanced and a vertex
    /// that has to leave its part has no place to go.
    pub proof fn law_breaking_off_has_a_reason(
        &self,
        settings: JetPartitioner,
        weights: &[Double],
        rows: Adjacency,
        before: Seq<usize>,
        after: Seq<usize>,
    )
        requires
            self.outcome(settings, weights, rows, before, after, false),
        ensures
            after == before,
            exists|states: Seq<JetState<'_>>|
                {
                    &&& #[trigger] self.run(before.to_set().len() as usize, weights, states)
                    &&& states.len() >= 1
                    &&& states[0].rows() == rows
                    &&& states[0].configuration() == settings
                    &&& states[0].partition() == before
                    &&& states[0].locks() == Set::<usize>::empty()
                    &&& tabulates(rows, before, states[0].connectivity())
                    &&& states.last().rounds() < settings.iterations
                    &&& states.last().balanced() ==> lacks_an_entry(states.last())
                    &&& !states.last().balanced() ==> exists|load: Load| #[trigger]
                        self.loads(
                            states.last().configuration().balance_factor,
                            before.to_set().len() as usize,
                            states.last().partition(),
                            weights@,
                            load,
                        ) && lacks_a_refuge(states.last(), weights@, load)
                },
    {
        let parts = before.to_set().len() as usize;
        let (states, d) = choose|states: Seq<JetState<'_>>, d: Double| #[trigger]
            self.run(parts, weights, states) && #[trigger] self.measures(
                parts,
                before,
                weights,
                d,
            ) && states[0].starts(settings, rows, before, d) && states.last().rounds()
                < settings.iterations && self.may_break_off(parts, weights, states.last()) && after
                == before;
        assert(self.run(parts, weights, states));
        let last = states.last();
        if last.balanced() {
            law_refinement_needs_entries(
                last.rows(),
                last.partition(),
                last.connectivity(),
                last.locks(),
            );
        } else {
            let load = choose|load: Load| #[trigger]
                self.loads(
                    last.configuration().balance_factor,
                    parts,
                    last.partition(),
                    weights@,
                    load,
                ) && !all_housed(
                    last.rows(),
                    last.partition(),
                    weights@,
                    last.connectivity(),
                    load,
                );
            law_rebalancing_needs_light_parts(
                last.rows(),
                last.partition(),
                weights@,
                last.connectivity(),
                load,
            );
            assert(self.loads(
                last.configuration().balance_factor,
                parts,
                last.partition(),
                weights@,
                load,
            ));
        }
    }

    proof fn lemma_run_is_rounds(
        &self,
        parts: usize,
        weights: &[Double],
        states: Seq<JetState<'_>>,
    )
        requires
            self.run(parts, weights, states),
        ensures
            forall|i: int|
                0 <= i < states.len() - 1 ==> #[trigger] states[i].rounds()
                    < states[0].configuration().iterations,
            forall|i: int, next: int|
                0 <= i < states.len() - 1 && next == i + 1 ==> #[trigger] self.round(
                    parts,
                    weights,
                    states[i],
                    states[next],
                ),
    {
        assert forall|i: int| 0 <= i < states.len() - 1 implies #[trigger] states[i].rounds()
            < states[0].configuration().iterations by {
            self.law_best_never_gets_worse(parts, weights, states, 0, i);
            assert(self.step(parts, weights, states, i + 1));
        }
        assert forall|i: int, next: int|
            0 <= i < states.len() - 1 && next == i + 1 implies #[trigger] self.round(
            parts,
            weights,
            states[i],
            states[next],
        ) by {
            assert(self.step(parts, weights, states, next));
        }
    }

    /// A vertex that one refinement puts into another part is not moved by the
    /// next one.
    pub proof fn law_moved_vertices_rest(
        &self,
        parts: usize,
        weights: &[Double],
        state: JetState<'_>,
        next: JetState<'_>,
        last: JetState<'_>,
        v: int,
    )
        requires
            self.round(parts, weights, state, next),
            self.round(parts, weights, next, last),
            state.imbalance().lt(state.configuration().balance_factor),
            next.imbalance().lt(next.configuration().balance_factor),
            state.rows().len() == state.partition().len(),
            state.rows().len() <= usize::MAX,
            0 <= v < state.rows().len(),
            next.partition()[v] != state.partition()[v],
        ensures
            last.partition()[v] == next.partition()[v],
    {
        self.law_round_applies_moves(parts, weights, state, next);
        self.law_round_applies_moves(parts, weights, next, last);
        let rows = state.rows();
        let one = choose|allowance: Seq<i64>|
            {
                let moves = refinement(
                    state.rows(),
                    state.partition(),
                    state.connectivity(),
                    state.locks(),
                    allowance,
                );
                &&& #[trigger] self.allows(
                    state.configuration().filter_ratio,
                    state.partition(),
                    state.connectivity(),
                    allowance,
                )
                &&& next.partition() == relocated(
                    state.partition(),
                    moves,
                    moves.len() as int,
                )
                &&& forall|v: usize| #[trigger]
                    next.locks().contains(v) <==> moves_vertex(moves, v)
            };
        let two = choose|allowance: Seq<i64>|
            {
                let moves = refinement(
                    next.rows(),
                    next.partition(),
                    next.connectivity(),
                    next.locks(),
                    allowance,
                );
                &&& #[trigger] self.allows(
                    next.configuration().filter_ratio,
                    next.partition(),
                    next.connectivity(),
                    allowance,
                )
                &&& last.partition() == relocated(
                    next.partition(),
                    moves,
                    moves.len() as int,
                )
            };
        let first = refinement(
            rows,
            state.partition(),
            state.connectivity(),
            state.locks(),
            one,
        );
        let second = refinement(rows, next.partition(), next.connectivity(), next.locks(), two);
        law_refinement_respects_locks(
            rows,
            state.partition(),
            state.connectivity(),
            state.locks(),
            one,
        );
        law_refinement_respects_locks(
            rows,
            next.partition(),
            next.connectivity(),
            next.locks(),
            two,
        );
        law_moves_are_applied(state.partition(), first, first.len() as int);
        law_moves_are_applied(next.partition(), second, second.len() as int);
        let u = v as usize;
        if !moves_vertex(first, u) {
            assert forall|j: int| 0 <= j < first.len() implies (#[trigger] first[j]).vertex
                != v by {
                assert(first[j].vertex != u);
            }
        }
        assert(next.locks().contains(u));
        assert forall|j: int| 0 <= j < second.len() implies (#[trigger] second[j]).vertex != v by {
            assert(!next.locks().contains(second[j].vertex));
        }
    }

    proof fn lemma_best_beats_met(
        &self,
        parts: usize,
        weights: &[Double],
        states: Seq<JetState<'_>>,
        i: int,
    )
        requires
            self.run(parts, weights, states),
            0 <= i < states.len(),
            states[0].best_partition() == states[0].partition(),
            states[i].imbalance().lt(states[i].configuration().balance_factor),
        ensures
            cut(states[i].rows(), states[i].best_partition()) <= cut(
                states[i].rows(),
                states[i].partition(),
            ),
    {
        if i > 0 {
            assert(self.step(parts, weights, states, i));
            self.law_round_applies_moves(parts, weights, states[i - 1], states[i]);
            self.law_round_keeps_the_better(parts, weights, states[i - 1], states[i]);
        }
    }

    /// A run from a balanced partition ends with the best of all partitions that
    /// it meets: no balanced one among them has a smaller edge cut.
    pub proof fn law_best_of_all_met(
        &self,
        parts: usize,
        weights: &[Double],
        states: Seq<JetState<'_>>,
        i: int,
        j: int,
    )
        requires
            self.run(parts, weights, states),
            0 <= i <= j < states.len(),
            states[0].best_partition() == states[0].partition(),
            states[0].best_balanced(),
            states[i].imbalance().lt(states[i].configuration().balance_factor),
        ensures
            cut(states[i].rows(), states[j].best_partition()) <= cut(
                states[i].rows(),
                states[i].partition(),
            ),
    {
        self.lemma_best_beats_met(parts, weights, states, i);
        self.law_best_never_gets_worse(parts, weights, states, 0, i);
        self.law_best_never_gets_worse(parts, weights, states, i, j);
    }

    /// The first refinement of a balanced partition counts: if the partition that
    /// it makes is balanced, the result has no greater edge cut. So a partition
    /// that one refinement would turn into a balanced one of smaller edge cut is
    /// never kept as it is.
    pub proof fn law_first_refinement_counts(
        &self,
        settings: JetPartitioner,
        weights: &[Double],
        rows: Adjacency,
        before: Seq<usize>,
        after: Seq<usize>,
    )
        requires
            settings.iterations >= 1,
            self.outcome(settings, weights, rows, before, after, true),
            forall|d: Double| #[trigger]
                self.measures(before.to_set().len() as usize, before, weights, d) ==> d.lt(
                    settings.balance_factor,
                ),
        ensures
            cut(rows, after) <= cut(rows, before),
            exists|once: Seq<usize>| #[trigger]
                self.first_refinement(settings.filter_ratio, rows, before, once) && ((forall|
                    d: Double,
                | #[trigger]
                    self.measures(before.to_set().len() as usize, once, weights, d) ==> d.lt(
                        settings.balance_factor,
                    )) ==> cut(rows, after) <= cut(rows, once)),
    {
        let parts = before.to_set().len() as usize;
        self.law_outcome_is_a_run(settings, weights, rows, before, after);
        let states = choose|states: Seq<JetState<'_>>|
            {
                &&& states.len() >= 1
                &&& states[0].rows() == rows
                &&& states[0].configuration() == settings
                &&& states[0].partition() == before
                &&& states[0].best_partition() == before
                &&& states[0].rounds() == 0
                &&& states[0].locks() == Set::<usize>::empty()
                &&& tabulates(rows, before, states[0].connectivity())
                &&& states[0].imbalance() == states[0].least_imbalance()
                &&& self.measures(parts, before, weights, states[0].imbalance())
                &&& #[trigger] self.run(parts, weights, states)
                &&& states.last().rounds() >= settings.iterations
                &&& after == states.last().best_partition()
            };
        assert(states.len() >= 2);
        let last = states.len() - 1;
        let once = states[1].partition();
        assert(self.step(parts, weights, states, 1));
        self.law_round_applies_moves(parts, weights, states[0], states[1]);
        self.law_round_keeps_the_better(parts, weights, states[0], states[1]);
        let allowance = choose|allowance: Seq<i64>|
            {
                let moves = refinement(
                    rows,
                    before,
                    states[0].connectivity(),
                    states[0].locks(),
                    allowance,
                );
                &&& #[trigger] self.allows(
                    settings.filter_ratio,
                    before,
                    states[0].connectivity(),
                    allowance,
                )
                &&& once == relocated(before, moves, moves.len() as int)
            };
        assert(self.allows(settings.filter_ratio, before, states[0].connectivity(), allowance));
        assert(self.first_refinement(settings.filter_ratio, rows, before, once));
        self.law_best_of_all_met(parts, weights, states, 0, last);
        if forall|d: Double| #[trigger]
            self.measures(parts, once, weights, d) ==> d.lt(settings.balance_factor) {
            assert(self.measures(parts, once, weights, states[1].imbalance()));
            self.law_best_of_all_met(parts, weights, states, 1, last);
        }
    }
}

} // verus!
