//! What the rounds of the Jet partitioner achieve, whatever the arithmetic
//! gives.

use crate::arithmetic::Arithmetic;
use crate::connectivity::{tabulates, Move};
use crate::double::Double;
use crate::jet::{rebalanced, JetPartitioner, JetState};
use crate::rebalance::{
    all_housed, law_rebalancing_unloads_heavy_parts, law_refuges_are_tabled, lemma_parts_within,
    picks_fit, rebalances, stranded, Load,
};
use crate::refine::{
    choices_tabled, law_choices_are_tabled, law_refinement_respects_locks, lemma_destination_occurs,
    refinement,
};
use crate::relocate::{follows, relocated};
use crate::topology::{cut, lemma_cut_bound, mass, positive, row_cut, symmetric, Adjacency};
use crate::total::{lemma_total_nonneg, total};
use crate::tracking::lemma_relocated_len;
use vstd::prelude::*;

verus! {

/// Every part of `later` occurs in `start` or is numbered below the number of
/// parts.
pub open spec fn keeps_parts(start: Seq<usize>, parts: int, later: Seq<usize>) -> bool {
    forall|v: int|
        0 <= v < later.len() ==> start.contains(#[trigger] later[v]) || later[v] < parts
}

/// Every part of `part` occurs in `others`.
pub open spec fn within(part: Seq<usize>, others: Seq<usize>) -> bool {
    forall|v: int| 0 <= v < part.len() ==> others.contains(#[trigger] part[v])
}

/// The parts are numbered from zero without a gap.
pub open spec fn gapless(part: Seq<usize>) -> bool {
    forall|p: usize| p < part.to_set().len() ==> #[trigger] part.contains(p)
}

/// The parts are numbered below a limit.
pub open spec fn below(part: Seq<usize>, limit: usize) -> bool {
    forall|v: int| 0 <= v < part.len() ==> #[trigger] part[v] < limit
}

proof fn lemma_moves_keep_parts(
    start: Seq<usize>,
    parts: int,
    part: Seq<usize>,
    moves: Seq<Move>,
    j: int,
)
    requires
        0 <= j <= moves.len(),
        keeps_parts(start, parts, part),
        forall|i: int| 0 <= i < moves.len() ==> (#[trigger] moves[i]).vertex < part.len(),
        forall|i: int|
            0 <= i < moves.len() ==> start.contains((#[trigger] moves[i]).partition_id)
                || moves[i].partition_id < parts,
    ensures
        keeps_parts(start, parts, relocated(part, moves, j)),
    decreases j,
{
    if j > 0 {
        lemma_moves_keep_parts(start, parts, part, moves, j - 1);
        lemma_relocated_len(part, moves, j - 1);
        let before = relocated(part, moves, j - 1);
        let after = relocated(part, moves, j);
        let step = moves[j - 1];
        assert forall|v: int| 0 <= v < after.len() implies start.contains(#[trigger] after[v])
            || after[v] < parts by {
            if v == step.vertex {
                assert(after[v] == step.partition_id);
            } else {
                assert(after[v] == before[v]);
            }
        }
    }
}

/// A partition whose parts are numbered below a limit has at most that many
/// parts.
pub proof fn lemma_parts_below(part: Seq<usize>, limit: usize)
    requires
        below(part, limit),
    ensures
        part.to_set().len() <= limit,
{
    let parts = part.to_set();
    part.lemma_cardinality_of_set();
    assert forall|p: usize| #[trigger] parts.contains(p) implies p < limit by {
        let v = choose|v: int| 0 <= v < part.len() && part[v] == p;
        assert(part[v] < limit);
    }
    lemma_few_below(parts, limit);
}

proof fn lemma_few_below(parts: Set<usize>, limit: usize)
    requires
        parts.finite(),
        forall|p: usize| #[trigger] parts.contains(p) ==> p < limit,
    ensures
        parts.len() <= limit,
    decreases limit,
{
    if limit == 0 {
        assert(parts =~= Set::<usize>::empty());
    } else {
        let last = (limit - 1) as usize;
        let fewer = parts.remove(last);
        assert forall|p: usize| #[trigger] fewer.contains(p) implies p < last by {
            assert(parts.contains(p));
        }
        lemma_few_below(fewer, last);
    }
}

proof fn lemma_cut_nonneg(rows: Adjacency, part: Seq<usize>)
    requires
        positive(rows),
    ensures
        cut(rows, part) >= 0,
{
    let by_row = |v: int| row_cut(rows, part, v);
    assert forall|v: int| 0 <= v < rows.len() implies #[trigger] by_row(v) >= 0 by {
        let crossing = |k: int|
            if rows[v][k].0 < v && part[rows[v][k].0 as int] != part[v] {
                rows[v][k].1 as int
            } else {
                0
            };
        assert forall|k: int| 0 <= k < rows[v].len() implies #[trigger] crossing(k) >= 0 by {
            assert(rows[v][k].1 > 0);
        }
        lemma_total_nonneg(rows[v].len() as int, crossing);
        assert(row_cut(rows, part, v) == total(rows[v].len() as int, crossing));
    }
    lemma_total_nonneg(rows.len() as int, by_row);
    assert(cut(rows, part) == total(rows.len() as int, by_row));
}

impl<I, P, N, T, O, W, C, F> Arithmetic<I, P, N, T, O, W, C, F> where
    I: Fn(usize, &Vec<usize>, &[Double]) -> Double + Copy,
    P: Fn(Double, Double) -> Double + Copy,
    N: Fn(Double, Double) -> Double + Copy,
    T: Fn(Double, Double) -> Double + Copy,
    O: Fn(Double, Double) -> Double + Copy,
    W: Fn(i64) -> Double + Copy,
    C: Fn(usize) -> Double + Copy,
    F: Fn(Double) -> i64 + Copy,
 {
    /// The state `next` comes from `state` by the moves that lead to `middle`
    /// and by the end of the round, with the given readings.
    pub open spec fn round_by(
        &self,
        parts: usize,
        weights: &[Double],
        state: JetState<'_>,
        middle: JetState<'_>,
        readings: (Double, Double, Double),
        next: JetState<'_>,
    ) -> bool {
        let (imbalance, edge_cut, bound) = readings;
        &&& middle.well_formed()
        &&& middle.same_standing(&state)
        &&& self.advances(parts, weights, state, middle)
        &&& self.measures(parts, middle.partition(), weights, imbalance)
        &&& call_ensures(
            self.widen,
            (cut(middle.rows(), middle.partition()) as i64,),
            edge_cut,
        )
        &&& self.scales(
            middle.configuration().tolerance_factor,
            cut(middle.rows(), middle.best_partition()) as i64,
            bound,
        )
        &&& middle.settles_to(imbalance, edge_cut, bound, &next)
    }

    /// A round has a middle and readings.
    pub proof fn lemma_round(
        &self,
        parts: usize,
        weights: &[Double],
        state: JetState<'_>,
        next: JetState<'_>,
    )
        requires
            self.round(parts, weights, state, next),
        ensures
            exists|middle: JetState<'_>, readings: (Double, Double, Double)| #[trigger]
                self.round_by(parts, weights, state, middle, readings, next),
    {
        reveal(Arithmetic::round);
        let middle = choose|middle: JetState<'_>|
            middle.well_formed() && middle.same_standing(&state) && #[trigger] self.advances(
                parts,
                weights,
                state,
                middle,
            ) && self.settles(parts, weights, middle, next);
        let now = cut(middle.rows(), middle.partition()) as i64;
        let best = cut(middle.rows(), middle.best_partition()) as i64;
        let (d, e, b) = choose|d: Double, e: Double, b: Double|
            self.measures(parts, middle.partition(), weights, d) && #[trigger] call_ensures(
                self.widen,
                (now,),
                e,
            ) && #[trigger] self.scales(middle.configuration().tolerance_factor, best, b)
                && #[trigger] middle.settles_to(d, e, b, &next);
        assert(self.round_by(parts, weights, state, middle, (d, e, b), next));
    }

    /// The best partition of `later` is no worse than that of `state`. If that
    /// is balanced, it is the same or balanced with a smaller edge cut; if not,
    /// it is the same, balanced or less imbalanced. Its imbalance has been
    /// measured of it if that of `state` was.
    pub open spec fn holds_up(
        &self,
        parts: usize,
        weights: &[Double],
        state: JetState<'_>,
        later: JetState<'_>,
    ) -> bool {
        &&& later.rows() == state.rows()
        &&& later.configuration() == state.configuration()
        &&& state.best_balanced() ==> later.best_balanced() && (later.best_partition()
            == state.best_partition() || cut(later.rows(), later.best_partition()) < cut(
            state.rows(),
            state.best_partition(),
        ))
        &&& !state.best_balanced() ==> (later.best_partition() == state.best_partition()
            && later.least_imbalance() == state.least_imbalance()) || later.best_balanced()
            || later.least_imbalance().lt(state.least_imbalance())
        &&& self.measures(parts, state.best_partition(), weights, state.least_imbalance())
            ==> self.measures(parts, later.best_partition(), weights, later.least_imbalance())
    }

    proof fn lemma_round_holds_up(
        &self,
        parts: usize,
        weights: &[Double],
        state: JetState<'_>,
        next: JetState<'_>,
    )
        requires
            self.round(parts, weights, state, next),
        ensures
            self.holds_up(parts, weights, state, next),
    {
        self.lemma_round(parts, weights, state, next);
        let (middle, readings) = choose|
            middle: JetState<'_>,
            readings: (Double, Double, Double),
        | #[trigger]
            self.round_by(parts, weights, state, middle, readings, next);
        assert(middle.settles_to(readings.0, readings.1, readings.2, &next));
    }

    proof fn lemma_holds_up_further(
        &self,
        parts: usize,
        weights: &[Double],
        first: JetState<'_>,
        second: JetState<'_>,
        third: JetState<'_>,
    )
        requires
            self.holds_up(parts, weights, first, second),
            self.holds_up(parts, weights, second, third),
        ensures
            self.holds_up(parts, weights, first, third),
    {
    }

    /// The best partition never gets worse from round to round. Once it is
    /// balanced it stays balanced, and it only gives way to one with a smaller
    /// edge cut; until then its imbalance does not grow.
    pub proof fn law_best_never_gets_worse(
        &self,
        parts: usize,
        weights: &[Double],
        states: Seq<JetState<'_>>,
        i: int,
        j: int,
    )
        requires
            self.run(parts, weights, states),
            0 <= i <= j < states.len(),
        ensures
            self.holds_up(parts, weights, states[i], states[j]),
        decreases j - i,
    {
        if i < j {
            self.law_best_never_gets_worse(parts, weights, states, i, j - 1);
            assert(self.step(parts, weights, states, j));
            self.lemma_round_holds_up(parts, weights, states[j - 1], states[j]);
            self.lemma_holds_up_further(parts, weights, states[i], states[j - 1], states[j]);
        }
    }

    /// The partitioner does not make a partition worse. What it makes of a
    /// balanced one is balanced, and is that one or has a smaller edge cut.
    /// What it makes of any other has no greater imbalance, and is that one,
    /// balanced or less imbalanced.
    pub proof fn law_outcome_is_no_worse(
        &self,
        settings: JetPartitioner,
        weights: &[Double],
        rows: Adjacency,
        before: Seq<usize>,
        after: Seq<usize>,
        done: bool,
    )
        requires
            self.outcome(settings, weights, rows, before, after, done),
        ensures
            exists|d: Double, e: Double|
                {
                    &&& #[trigger] self.measures(
                        before.to_set().len() as usize,
                        before,
                        weights,
                        d,
                    )
                    &&& #[trigger] self.measures(
                        before.to_set().len() as usize,
                        after,
                        weights,
                        e,
                    )
                    &&& d.lt(settings.balance_factor) ==> e.lt(settings.balance_factor) && (after
                        == before || cut(rows, after) < cut(rows, before))
                    &&& !d.lt(settings.balance_factor) ==> !d.lt(e) && (after == before || e.lt(
                        settings.balance_factor,
                    ) || e.lt(d))
                },
    {
        let parts = before.to_set().len() as usize;
        let (states, d) = choose|states: Seq<JetState<'_>>, d: Double| #[trigger]
            self.run(parts, weights, states) && #[trigger] self.measures(
                parts,
                before,
                weights,
                d,
            ) && states[0].starts(settings, rows, before, d) && (if done {
                &&& states.last().rounds() >= settings.iterations
                &&& after == states.last().best_partition()
            } else {
                &&& states.last().rounds() < settings.iterations
                &&& self.may_break_off(parts, weights, states.last())
                &&& after == before
            });
        self.law_best_never_gets_worse(parts, weights, states, 0, states.len() - 1);
        let e = if done {
            states.last().least_imbalance()
        } else {
            d
        };
        assert(self.measures(parts, after, weights, e));
    }

    proof fn lemma_advance_keeps_parts(
        &self,
        start: Seq<usize>,
        parts: usize,
        weights: &[Double],
        state: JetState<'_>,
        middle: JetState<'_>,
    )
        requires
            middle.well_formed(),
            middle.same_standing(&state),
            self.advances(parts, weights, state, middle),
            state.partition().len() == state.rows().len(),
            state.rows().len() <= usize::MAX,
            keeps_parts(start, parts as int, state.partition()),
        ensures
            keeps_parts(start, parts as int, middle.partition()),
    {
        let rows = state.rows();
        let part = state.partition();
        let c = state.connectivity();
        middle.lemma_well_formed();
        if state.balanced() {
            let allowance = choose|allowance: Seq<i64>| #[trigger]
                self.allows(state.configuration().filter_ratio, part, c, allowance)
                    && choices_tabled(rows, part, c, state.locks()) && ({
                    let moves = refinement(rows, part, c, state.locks(), allowance);
                    &&& middle.partition() == relocated(part, moves, moves.len() as int)
                    &&& follows(rows, part, moves, c, middle.connectivity())
                    &&& forall|v: usize| #[trigger]
                        middle.locks().contains(v) <==> exists|j: int|
                            0 <= j < moves.len() && (#[trigger] moves[j]).vertex == v
                });
            let moves = refinement(rows, part, c, state.locks(), allowance);
            law_refinement_respects_locks(rows, part, c, state.locks(), allowance);
            assert forall|j: int| 0 <= j < moves.len() implies start.contains(
                (#[trigger] moves[j]).partition_id,
            ) || moves[j].partition_id < parts by {
                let v = moves[j].vertex as int;
                lemma_destination_occurs(rows, part, c, state.locks(), v);
                let d = moves[j].partition_id;
                let u = choose|u: int| 0 <= u < part.len() && part[u] == d;
                assert(start.contains(part[u]) || part[u] < parts);
            }
            lemma_moves_keep_parts(start, parts as int, part, moves, moves.len() as int);
        } else {
            let (load, picks) = choose|load: Load, picks: Seq<usize>|
                self.loads(
                    state.configuration().balance_factor,
                    parts,
                    part,
                    weights@,
                    load,
                ) && #[trigger] picks_fit(load, picks, rows.len()) && all_housed(
                    rows,
                    part,
                    weights@,
                    c,
                    load,
                ) && rebalanced(self.plus, state, middle, weights@, load, picks);
            let moves = choose|moves: Seq<Move>| #[trigger]
                rebalances(self.plus, rows, part, weights@, c, load, picks, moves)
                    && middle.partition() == relocated(part, moves, moves.len() as int) && follows(
                    rows,
                    part,
                    moves,
                    c,
                    middle.connectivity(),
                );
            law_rebalancing_unloads_heavy_parts(
                self.plus,
                rows,
                part,
                weights@,
                c,
                load,
                picks,
                moves,
            );
            lemma_parts_within(load.max_weight_dest, load.weights@, load.weights@.len() as int);
            assert forall|j: int| 0 <= j < moves.len() implies start.contains(
                (#[trigger] moves[j]).partition_id,
            ) || moves[j].partition_id < parts by {
                let step = moves[j];
                if !load.light().contains(step.partition_id) {
                    assert(step.partition_id == part[step.vertex as int]);
                    assert(step.vertex < part.len());
                }
            }
            lemma_moves_keep_parts(start, parts as int, part, moves, moves.len() as int);
        }
    }

    proof fn lemma_run_keeps_parts(
        &self,
        parts: usize,
        weights: &[Double],
        states: Seq<JetState<'_>>,
        start: Seq<usize>,
        j: int,
    )
        requires
            self.run(parts, weights, states),
            0 <= j < states.len(),
            states[0].partition() == start,
            states[0].best_partition() == start,
            states[0].rows().len() == start.len(),
            start.len() <= usize::MAX,
        ensures
            states[j].rows() == states[0].rows(),
            states[j].partition().len() == start.len(),
            states[j].best_partition().len() == start.len(),
            keeps_parts(start, parts as int, states[j].partition()),
            keeps_parts(start, parts as int, states[j].best_partition()),
        decreases j,
    {
        if j == 0 {
            assert forall|v: int| 0 <= v < start.len() implies start.contains(
                #[trigger] start[v],
            ) by {}
        } else {
            self.lemma_run_keeps_parts(parts, weights, states, start, j - 1);
            let state = states[j - 1];
            let next = states[j];
            assert(self.step(parts, weights, states, j));
            self.lemma_round(parts, weights, state, next);
            let (middle, readings) = choose|
                middle: JetState<'_>,
                readings: (Double, Double, Double),
            | #[trigger]
                self.round_by(parts, weights, state, middle, readings, next);
            self.lemma_advance_keeps_parts(start, parts, weights, state, middle);
            middle.lemma_well_formed();
            assert(middle.settles_to(readings.0, readings.1, readings.2, &next));
        }
    }

    /// The partitioner makes up no parts: every part of the result occurs in
    /// the partition that it started from, or is numbered below the number of
    /// parts. So no part is new if the parts are numbered without a gap, and
    /// parts numbered below a limit stay below it.
    pub proof fn law_outcome_makes_up_no_parts(
        &self,
        settings: JetPartitioner,
        weights: &[Double],
        rows: Adjacency,
        before: Seq<usize>,
        after: Seq<usize>,
        done: bool,
    )
        requires
            rows.len() == before.len(),
            rows.len() <= usize::MAX,
            self.outcome(settings, weights, rows, before, after, done),
        ensures
            after.len() == before.len(),
            keeps_parts(before, before.to_set().len() as int, after),
            gapless(before) ==> within(after, before),
            forall|limit: usize| #[trigger] below(before, limit) ==> below(after, limit),
    {
        before.lemma_cardinality_of_set();
        let parts = before.to_set().len() as usize;
        if done {
            let (states, d) = choose|states: Seq<JetState<'_>>, d: Double| #[trigger]
                self.run(parts, weights, states) && #[trigger] self.measures(
                    parts,
                    before,
                    weights,
                    d,
                ) && states[0].starts(settings, rows, before, d) && states.last().rounds()
                    >= settings.iterations && after == states.last().best_partition();
            self.lemma_run_keeps_parts(parts, weights, states, before, states.len() - 1);
        } else {
            assert forall|v: int| 0 <= v < before.len() implies before.contains(
                #[trigger] before[v],
            ) by {}
        }
        assert forall|limit: usize| #[trigger] below(before, limit) implies below(after, limit) by {
            lemma_parts_below(before, limit);
            assert forall|v: int| 0 <= v < after.len() implies #[trigger] after[v] < limit by {
                if before.contains(after[v]) {
                    let u = choose|u: int| 0 <= u < before.len() && before[u] == after[v];
                    assert(before[u] < limit);
                }
            }
        }
    }

    proof fn lemma_run_keeps_table(
        &self,
        parts: usize,
        weights: &[Double],
        states: Seq<JetState<'_>>,
        j: int,
    )
        requires
            self.run(parts, weights, states),
            0 <= j < states.len(),
            symmetric(states[0].rows()),
            positive(states[0].rows()),
            tabulates(states[0].rows(), states[0].partition(), states[0].connectivity()),
        ensures
            states[j].rows() == states[0].rows(),
            states[j].configuration() == states[0].configuration(),
            tabulates(states[j].rows(), states[j].partition(), states[j].connectivity()),
        decreases j,
    {
        if j > 0 {
            self.lemma_run_keeps_table(parts, weights, states, j - 1);
            let state = states[j - 1];
            let next = states[j];
            assert(self.step(parts, weights, states, j));
            self.lemma_round(parts, weights, state, next);
            let (middle, readings) = choose|
                middle: JetState<'_>,
                readings: (Double, Double, Double),
            | #[trigger]
                self.round_by(parts, weights, state, middle, readings, next);
            middle.law_table_is_fresh();
            assert(middle.settles_to(readings.0, readings.1, readings.2, &next));
        }
    }

    /// In the given state a vertex may have to leave its part and find that there
    /// is no light part.
    pub open spec fn may_lack_light_parts(
        &self,
        parts: usize,
        weights: &[Double],
        state: JetState<'_>,
    ) -> bool {
        exists|load: Load, v: int|
            {
                &&& #[trigger] self.loads(
                    state.configuration().balance_factor,
                    parts,
                    state.partition(),
                    weights@,
                    load,
                )
                &&& load.light().len() == 0
                &&& 0 <= v < state.rows().len()
                &&& #[trigger] stranded(state.rows(), state.partition(), weights@, load, v)
            }
    }

    /// A run from a partition may come to a state in which a round is due, the
    /// partition of the state is not balanced, and there is no light part for a
    /// vertex that has to leave.
    pub open spec fn may_run_out_of_light_parts(
        &self,
        settings: JetPartitioner,
        weights: &[Double],
        rows: Adjacency,
        before: Seq<usize>,
    ) -> bool {
        let parts = before.to_set().len() as usize;
        exists|states: Seq<JetState<'_>>, d: Double|
            {
                &&& #[trigger] self.run(parts, weights, states)
                &&& #[trigger] self.measures(parts, before, weights, d)
                &&& states[0].starts(settings, rows, before, d)
                &&& states.last().rows() == rows
                &&& states.last().configuration() == settings
                &&& states.last().partition().len() == rows.len()
                &&& states.last().rounds() < settings.iterations
                &&& !states.last().balanced()
                &&& self.may_lack_light_parts(parts, weights, states.last())
            }
    }

    /// In an undirected graph with positive weights a run only breaks off where
    /// a partition that is not balanced has no light part for a vertex that has
    /// to leave. A refinement never breaks off there.
    pub proof fn law_rounds_go_through(
        &self,
        settings: JetPartitioner,
        weights: &[Double],
        rows: Adjacency,
        before: Seq<usize>,
        after: Seq<usize>,
        done: bool,
    )
        requires
            symmetric(rows),
            positive(rows),
            rows.len() == before.len(),
            rows.len() <= usize::MAX,
            self.outcome(settings, weights, rows, before, after, done),
        ensures
            done || self.may_run_out_of_light_parts(settings, weights, rows, before),
    {
        let parts = before.to_set().len() as usize;
        if !done {
            let (states, d) = choose|states: Seq<JetState<'_>>, d: Double| #[trigger]
                self.run(parts, weights, states) && #[trigger] self.measures(
                    parts,
                    before,
                    weights,
                    d,
                ) && states[0].starts(settings, rows, before, d) && states.last().rounds()
                    < settings.iterations && self.may_break_off(parts, weights, states.last());
            self.lemma_run_keeps_table(parts, weights, states, states.len() - 1);
            self.lemma_run_keeps_parts(parts, weights, states, before, states.len() - 1);
            let last = states.last();
            if last.balanced() {
                law_choices_are_tabled(rows, last.partition(), last.connectivity(), last.locks());
            } else {
                let load = choose|load: Load| #[trigger]
                    self.loads(
                        settings.balance_factor,
                        parts,
                        last.partition(),
                        weights@,
                        load,
                    ) && !all_housed(rows, last.partition(), weights@, last.connectivity(), load);
                law_refuges_are_tabled(
                    rows,
                    last.partition(),
                    weights@,
                    last.connectivity(),
                    load,
                );
                let v = choose|v: int|
                    0 <= v < rows.len() && #[trigger] stranded(
                        rows,
                        last.partition(),
                        weights@,
                        load,
                        v,
                    );
                assert(stranded(rows, last.partition(), weights@, load, v));
                assert(self.may_lack_light_parts(parts, weights, last));
            }
        }
    }

    /// No edge cut counts as a marked improvement on that of a partition.
    pub open spec fn never_marked(
        &self,
        tolerance_factor: Double,
        rows: Adjacency,
        part: Seq<usize>,
    ) -> bool {
        forall|later: Seq<usize>, e: Double, b: Double| #[trigger]
            call_ensures(self.widen, (cut(rows, later) as i64,), e) && #[trigger] self.scales(
                tolerance_factor,
                cut(rows, part) as i64,
                b,
            ) ==> !e.lt(b)
    }

    /// `after` is what the first refinement of a partition may make of it.
    pub open spec fn first_refinement(
        &self,
        filter_ratio: Double,
        rows: Adjacency,
        before: Seq<usize>,
        after: Seq<usize>,
    ) -> bool {
        exists|c: Seq<Map<usize, i64>>, allowance: Seq<i64>|
            {
                let moves = refinement(rows, before, c, Set::<usize>::empty(), allowance);
                &&& #[trigger] tabulates(rows, before, c)
                &&& #[trigger] self.allows(filter_ratio, before, c, allowance)
                &&& after == relocated(before, moves, moves.len() as int)
            }
    }

    /// With one round and no marked improvement in sight, the first round ends
    /// the run: what comes of a balanced partition is that partition, or that
    /// partition with exactly the moves of the first refinement.
    pub proof fn law_one_round_is_one_refinement(
        &self,
        settings: JetPartitioner,
        weights: &[Double],
        rows: Adjacency,
        before: Seq<usize>,
        after: Seq<usize>,
        done: bool,
    )
        requires
            settings.iterations == 1,
            self.outcome(settings, weights, rows, before, after, done),
            forall|d: Double| #[trigger]
                self.measures(before.to_set().len() as usize, before, weights, d) ==> d.lt(
                    settings.balance_factor,
                ),
            self.never_marked(settings.tolerance_factor, rows, before),
        ensures
            after == before || self.first_refinement(settings.filter_ratio, rows, before, after),
    {
        let parts = before.to_set().len() as usize;
        if done {
            let (states, d) = choose|states: Seq<JetState<'_>>, d: Double| #[trigger]
                self.run(parts, weights, states) && #[trigger] self.measures(
                    parts,
                    before,
                    weights,
                    d,
                ) && states[0].starts(settings, rows, before, d) && states.last().rounds()
                    >= settings.iterations && after == states.last().best_partition();
            let state = states[0];
            assert(states.len() >= 2);
            let next = states[1];
            assert(self.step(parts, weights, states, 1));
            self.lemma_round(parts, weights, state, next);
            let (middle, readings) = choose|
                middle: JetState<'_>,
                readings: (Double, Double, Double),
            | #[trigger]
                self.round_by(parts, weights, state, middle, readings, next);
            assert(middle.settles_to(readings.0, readings.1, readings.2, &next));
            assert(call_ensures(
                self.widen,
                (cut(rows, middle.partition()) as i64,),
                readings.1,
            ));
            assert(!readings.1.lt(readings.2));
            assert(next.rounds() == 1);
            if states.len() > 2 {
                assert(self.step(parts, weights, states, 2));
            }
            assert(states.last() == next);
            let c = state.connectivity();
            let allowance = choose|allowance: Seq<i64>| #[trigger]
                self.allows(settings.filter_ratio, before, c, allowance) && choices_tabled(
                    rows,
                    before,
                    c,
                    state.locks(),
                ) && ({
                    let moves = refinement(rows, before, c, state.locks(), allowance);
                    &&& middle.partition() == relocated(before, moves, moves.len() as int)
                    &&& follows(rows, before, moves, c, middle.connectivity())
                    &&& forall|v: usize| #[trigger]
                        middle.locks().contains(v) <==> exists|j: int|
                            0 <= j < moves.len() && (#[trigger] moves[j]).vertex == v
                });
            assert(self.allows(settings.filter_ratio, before, c, allowance));
        }
    }

    /// An integer that is not negative is a number that is not negative, and
    /// zero times a number is never above zero.
    pub open spec fn zero_annihilates(&self) -> bool {
        &&& forall|x: i64, e: Double|
            x >= 0 && #[trigger] call_ensures(self.widen, (x,), e) ==> e.ge(Double { bits: 0 })
        &&& forall|w: Double, b: Double|
            #[trigger] call_ensures(self.times, (Double { bits: 0 }, w), b) ==> !(Double {
                bits: 0,
            }).lt(b)
    }

    /// With one round and a tolerance factor of zero the run is over after the
    /// first refinement: what comes of a balanced partition is that partition,
    /// or that partition with exactly the moves of the first refinement. No
    /// edge cut of a graph with positive weights is below zero times another.
    pub proof fn law_zero_tolerance_is_one_refinement(
        &self,
        settings: JetPartitioner,
        weights: &[Double],
        rows: Adjacency,
        before: Seq<usize>,
        after: Seq<usize>,
        done: bool,
    )
        requires
            settings.iterations == 1,
            settings.tolerance_factor.bits == 0,
            mass(rows) <= i64::MAX,
            positive(rows),
            self.zero_annihilates(),
            self.outcome(settings, weights, rows, before, after, done),
            forall|d: Double| #[trigger]
                self.measures(before.to_set().len() as usize, before, weights, d) ==> d.lt(
                    settings.balance_factor,
                ),
        ensures
            after == before || self.first_refinement(settings.filter_ratio, rows, before, after),
    {
        assert forall|later: Seq<usize>, e: Double, b: Double| #[trigger]
            call_ensures(self.widen, (cut(rows, later) as i64,), e) && #[trigger] self.scales(
                settings.tolerance_factor,
                cut(rows, before) as i64,
                b,
            ) implies !e.lt(b) by {
            lemma_cut_nonneg(rows, later);
            lemma_cut_bound(rows, later);
            lemma_cut_nonneg(rows, before);
            lemma_cut_bound(rows, before);
            let now = cut(rows, later) as i64;
            let best = cut(rows, before) as i64;
            assert(call_ensures(self.widen, (now,), e));
            let wide = choose|wide: Double| #[trigger]
                call_ensures(self.widen, (best,), wide) && call_ensures(
                    self.times,
                    (settings.tolerance_factor, wide),
                    b,
                );
            assert(settings.tolerance_factor == (Double { bits: 0 }));
            assert(call_ensures(self.times, (Double { bits: 0 }, wide), b));
        }
        self.law_one_round_is_one_refinement(settings, weights, rows, before, after, done);
    }
}

} // verus!
