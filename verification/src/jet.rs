//! The Jet partitioner: rounds of refinement and rebalancing that improve a
//! partition.
//!
//! Gilbert, Michael S., et al. "Jet: Multilevel graph partitioning on graphics
//! processing units." SIAM Journal on Scientific Computing 46.5 (2024):
//! B700-B724.

use crate::bounds::{lemma_tracked_moderate, lemma_tracked_room, tracks};
use crate::connectivity::{
    conn, init_vertex_connectivity_data_structure, strength, tables, tabulates, Move,
};
use crate::double::Double;
use crate::rebalance::{
    all_housed, jetrw, law_rebalancing_unloads_heavy_parts, picks_fit, rebalance, rebalances, Load,
};
use crate::refine::{
    choices_tabled, get_locked_vertices, jetlp, law_refinement_respects_locks, refinement,
};
use crate::relocate::{follows, movable, relocated, update_parts_and_vertex_connectivity};
use crate::topology::{
    cut, fits, in_range, lemma_cut_bound, lemma_row_mass, link, mass, positive, row_mass,
    symmetric, Adjacency, Graph,
};
use crate::tracking::{
    distinct_vertices, inflow, law_moves_keep_table, law_moves_shift_connectivity,
    lemma_inflow_is_link, lemma_relocated_len,
};
use std::collections::{HashMap, HashSet};
use vstd::prelude::*;
use vstd::slice::slice_to_vec;

verus! {

broadcast use vstd::std_specs::hash::group_hash_axioms;

/// The settings of the Jet partitioner.
#[derive(Clone, Copy, Debug, PartialEq, Eq, Structural)]
pub struct JetPartitioner {
    /// How many rounds in a row may pass without a marked improvement before
    /// the partitioner stops.
    pub iterations: u32,
    /// The greatest deviation allowed for the weight of a part: with a balance
    /// factor of b, a part may weigh (1 + b) times the average.
    pub balance_factor: Double,
    /// Which share of its connectivity to its own part a vertex may lose and
    /// still be considered for a move.
    pub filter_ratio: Double,
    /// When to start counting rounds again: an edge cut below this factor
    /// times the best edge cut is a marked improvement.
    pub tolerance_factor: Double,
}

impl Default for JetPartitioner {
    /// Twelve rounds, a balance factor of 0.1, a filter ratio of 0.75 and a
    /// tolerance factor of 0.99.
    fn default() -> (settings: JetPartitioner)
        ensures
            settings.iterations == 12,
            settings.balance_factor.bits == 0x3fb9_9999_9999_999a,
            settings.filter_ratio.bits == 0x3fe8_0000_0000_0000,
            settings.tolerance_factor.bits == 0x3fef_ae14_7ae1_47ae,
    {
        JetPartitioner {
            iterations: 12,
            balance_factor: Double { bits: 0x3fb9_9999_9999_999a },
            filter_ratio: Double { bits: 0x3fe8_0000_0000_0000 },
            tolerance_factor: Double { bits: 0x3fef_ae14_7ae1_47ae },
        }
    }
}

/// What a round does.
#[derive(Clone, Copy, Debug, PartialEq, Eq, Structural)]
pub enum Routine {
    /// It makes the edge cut smaller.
    Refine,
    /// It moves weight out of heavy parts.
    Rebalance,
}

/// Counts the parts that occur in a partition.
pub fn number_of_partitions(partition: &[usize]) -> (count: usize)
    ensures
        count == partition@.to_set().len(),
{
    let mut seen: HashSet<usize> = HashSet::new();
    let mut v: usize = 0;
    assert(partition@.take(0).to_set() =~= Set::<usize>::empty());
    while v < partition.len()
        invariant
            v <= partition@.len(),
            seen@ == partition@.take(v as int).to_set(),
        decreases partition@.len() - v,
    {
        proof {
            let fewer = partition@.take(v as int);
            let more = partition@.take(v + 1);
            assert(more == fewer.push(partition@[v as int]));
            assert(more.to_set() =~= fewer.to_set().insert(partition@[v as int])) by {
                assert forall|x: usize| #[trigger]
                    more.to_set().contains(x) <==> fewer.to_set().insert(
                        partition@[v as int],
                    ).contains(x) by {
                    if more.contains(x) {
                        let i = choose|i: int| 0 <= i < more.len() && more[i] == x;
                        if i < v {
                            assert(fewer[i] == x);
                        }
                    }
                    if fewer.contains(x) {
                        let i = choose|i: int| 0 <= i < fewer.len() && fewer[i] == x;
                        assert(more[i] == x);
                    }
                    assert(more[v as int] == partition@[v as int]);
                }
            }
        }
        seen.insert(partition[v]);
        v += 1;
    }
    assert(partition@.take(partition@.len() as int) == partition@);
    seen.len()
}

/// Where the Jet partitioner stands between two rounds.
pub struct JetState<'a> {
    graph: &'a Graph,
    settings: JetPartitioner,
    best: Vec<usize>,
    best_imbalance: Double,
    current: Vec<usize>,
    current_imbalance: Double,
    counter: u32,
    table: Vec<HashMap<usize, i64>>,
    locked: HashSet<usize>,
    start: Ghost<Seq<usize>>,
}

impl<'a> JetState<'a> {
    /// The graph.
    pub closed spec fn rows(&self) -> Adjacency {
        self.graph@
    }

    /// The settings.
    pub closed spec fn configuration(&self) -> JetPartitioner {
        self.settings
    }

    /// The best partition so far.
    pub closed spec fn best_partition(&self) -> Seq<usize> {
        self.best@
    }

    /// The imbalance of the best partition so far.
    pub closed spec fn least_imbalance(&self) -> Double {
        self.best_imbalance
    }

    /// The partition that the rounds work on.
    pub closed spec fn partition(&self) -> Seq<usize> {
        self.current@
    }

    /// The imbalance of the partition that the rounds work on.
    pub closed spec fn imbalance(&self) -> Double {
        self.current_imbalance
    }

    /// The number of rounds since the last marked improvement.
    pub closed spec fn rounds(&self) -> nat {
        self.counter as nat
    }

    /// The connectivity table.
    pub closed spec fn connectivity(&self) -> Seq<Map<usize, i64>> {
        tables(self.table@)
    }

    /// The vertices that the last refinement moved.
    pub closed spec fn locks(&self) -> Set<usize> {
        self.locked@
    }

    /// The partitions and the table are about the vertices of the graph, the
    /// edge weights fit, and the table has followed every move. In an
    /// undirected graph with positive weights it is the table of the current
    /// partition.
    pub closed spec fn well_formed(&self) -> bool {
        let rows = self.graph@;
        &&& in_range(rows)
        &&& fits(rows)
        &&& self.best@.len() == rows.len()
        &&& self.current@.len() == rows.len()
        &&& self.table@.len() == rows.len()
        &&& self.start@.len() == rows.len()
        &&& tracks(rows, self.start@, self.current@, tables(self.table@))
        &&& symmetric(rows) && positive(rows) ==> tabulates(
            rows,
            self.current@,
            tables(self.table@),
        )
    }

    /// The current partition is balanced.
    pub open spec fn balanced(&self) -> bool {
        self.imbalance().lt(self.configuration().balance_factor)
    }

    /// Nothing but the current partition, its table and the locks differs.
    pub open spec fn same_standing(&self, other: &JetState<'a>) -> bool {
        &&& self.rows() == other.rows()
        &&& self.configuration() == other.configuration()
        &&& self.best_partition() == other.best_partition()
        &&& self.least_imbalance() == other.least_imbalance()
        &&& self.imbalance() == other.imbalance()
        &&& self.rounds() == other.rounds()
    }

    /// What every state guarantees.
    pub proof fn lemma_well_formed(&self)
        requires
            self.well_formed(),
        ensures
            in_range(self.rows()),
            fits(self.rows()),
            self.best_partition().len() == self.rows().len(),
            self.partition().len() == self.rows().len(),
            self.connectivity().len() == self.rows().len(),
    {
    }

    /// In an undirected graph the table of every state is exact: it gives the
    /// weight of the edges from each vertex to each part of the current
    /// partition.
    pub proof fn law_table_is_exact(&self)
        requires
            self.well_formed(),
            symmetric(self.rows()),
        ensures
            forall|v: int, p: usize|
                0 <= v < self.rows().len() ==> #[trigger] strength(self.connectivity(), v, p)
                    == link(self.rows(), self.partition(), v, p),
    {
        let rows = self.rows();
        assert forall|v: int, p: usize| 0 <= v < rows.len() implies #[trigger] strength(
            self.connectivity(),
            v,
            p,
        ) == link(rows, self.partition(), v, p) by {
            lemma_inflow_is_link(rows, self.start@, v, p);
            lemma_inflow_is_link(rows, self.partition(), v, p);
            assert(strength(self.connectivity(), v, p) == link(rows, self.start@, v, p) + inflow(
                rows,
                self.partition(),
                v,
                p,
            ) - inflow(rows, self.start@, v, p));
        }
    }

    /// In an undirected graph with positive weights the table of every state
    /// is the table that would be built afresh for the current partition.
    pub proof fn law_table_is_fresh(&self)
        requires
            self.well_formed(),
            symmetric(self.rows()),
            positive(self.rows()),
        ensures
            tabulates(self.rows(), self.partition(), self.connectivity()),
    {
    }

    /// The state is the first one for a partition with a given imbalance.
    pub open spec fn starts(
        &self,
        settings: JetPartitioner,
        rows: Adjacency,
        partition: Seq<usize>,
        imbalance: Double,
    ) -> bool {
        &&& self.rows() == rows
        &&& self.configuration() == settings
        &&& self.best_partition() == partition
        &&& self.least_imbalance() == imbalance
        &&& self.partition() == partition
        &&& self.imbalance() == imbalance
        &&& self.rounds() == 0
        &&& tabulates(rows, partition, self.connectivity())
        &&& self.locks() == Set::<usize>::empty()
    }

    /// Starts from a partition with a given imbalance.
    pub fn new(
        settings: JetPartitioner,
        graph: &'a Graph,
        partition: &[usize],
        imbalance: Double,
    ) -> (state: JetState<'a>)
        requires
            graph@.len() == partition@.len(),
            fits(graph@),
        ensures
            state.well_formed(),
            state.starts(settings, graph@, partition@, imbalance),
    {
        let n: usize = graph.len();
        proof {
            assert forall|v: int| 0 <= v < graph@.len() implies #[trigger] row_mass(graph@, v)
                <= i64::MAX by {
                lemma_row_mass(graph@, v);
            }
        }
        let table: Vec<HashMap<usize, i64>> = init_vertex_connectivity_data_structure(
            graph,
            partition,
        );
        let locked: HashSet<usize> = HashSet::new();
        JetState {
            graph,
            settings,
            best: slice_to_vec(partition),
            best_imbalance: imbalance,
            current: slice_to_vec(partition),
            current_imbalance: imbalance,
            counter: 0,
            table,
            locked,
            start: Ghost(partition@),
        }
    }

    /// Whether another round is due.
    pub fn is_running(&self) -> (r: bool)
        ensures
            r == (self.rounds() < self.configuration().iterations),
    {
        self.counter < self.settings.iterations
    }

    /// What the next round does: it refines a balanced partition and
    /// rebalances any other.
    pub fn routine(&self) -> (r: Routine)
        ensures
            r == if self.balanced() {
                Routine::Refine
            } else {
                Routine::Rebalance
            },
    {
        if self.current_imbalance.less(&self.settings.balance_factor) {
            Routine::Refine
        } else {
            Routine::Rebalance
        }
    }

    /// The settings.
    pub fn settings(&self) -> (settings: JetPartitioner)
        ensures
            settings == self.configuration(),
    {
        self.settings
    }

    /// The partition that the rounds work on.
    pub fn current_partition(&self) -> (partition: &Vec<usize>)
        ensures
            partition@ == self.partition(),
    {
        &self.current
    }

    /// The connectivity of each vertex to its own part.
    pub fn own_connectivity(&self) -> (weights: Vec<i64>)
        requires
            self.well_formed(),
        ensures
            weights@.len() == self.rows().len(),
            forall|v: int|
                0 <= v < weights@.len() ==> #[trigger] weights@[v] == strength(
                    self.connectivity(),
                    v,
                    self.partition()[v],
                ),
    {
        let mut weights: Vec<i64> = Vec::new();
        while weights.len() < self.current.len()
            invariant
                weights@.len() <= self.current@.len(),
                self.current@.len() == self.table@.len(),
                forall|v: int|
                    0 <= v < weights@.len() ==> #[trigger] weights@[v] == strength(
                        tables(self.table@),
                        v,
                        self.current@[v],
                    ),
            decreases self.current@.len() - weights@.len(),
        {
            let v: usize = weights.len();
            weights.push(conn(v, self.current[v], &self.table));
        }
        weights
    }

    /// The edge cuts of the current and of the best partition.
    pub fn edge_cuts(&self) -> (cuts: (i64, i64))
        requires
            self.well_formed(),
        ensures
            cuts.0 == cut(self.rows(), self.partition()),
            cuts.1 == cut(self.rows(), self.best_partition()),
    {
        (self.graph.edge_cut(self.current.as_slice()), self.graph.edge_cut(self.best.as_slice()))
    }

    fn apply(&mut self, moves: &Vec<Move>)
        requires
            old(self).well_formed(),
            movable(old(self).rows(), moves@),
            distinct_vertices(moves@),
        ensures
            final(self).well_formed(),
            final(self).same_standing(old(self)),
            final(self).locks() == old(self).locks(),
            final(self).partition() == relocated(
                old(self).partition(),
                moves@,
                moves@.len() as int,
            ),
            follows(
                old(self).rows(),
                old(self).partition(),
                moves@,
                old(self).connectivity(),
                final(self).connectivity(),
            ),
    {
        let ghost rows = self.graph@;
        let ghost part = self.current@;
        let ghost before = tables(self.table@);
        proof {
            lemma_tracked_room(rows, self.start@, part, before, moves@);
            lemma_relocated_len(part, moves@, moves@.len() as int);
        }
        update_parts_and_vertex_connectivity(
            self.graph,
            self.current.as_mut_slice(),
            &mut self.table,
            moves,
        );
        proof {
            let after = tables(self.table@);
            assert forall|v: int, p: usize| 0 <= v < rows.len() implies #[trigger] strength(
                after,
                v,
                p,
            ) == link(rows, self.start@, v, p) + inflow(rows, self.current@, v, p) - inflow(
                rows,
                self.start@,
                v,
                p,
            ) by {
                law_moves_shift_connectivity(rows, part, moves@, before, after, v, p);
                assert(strength(before, v, p) == link(rows, self.start@, v, p) + inflow(
                    rows,
                    part,
                    v,
                    p,
                ) - inflow(rows, self.start@, v, p));
            }
            if symmetric(rows) && positive(rows) {
                law_moves_keep_table(rows, part, moves@, before, after);
            }
        }
    }

    /// A round of refinement. The vertices that it moves are locked for the
    /// next one.
    ///
    /// `allowance` holds for each vertex the filter ratio times its
    /// connectivity to its own part, rounded down. Nothing happens and the
    /// result is false if the table has no entry for a part that a vertex can
    /// move to.
    pub fn refine(&mut self, allowance: &[i64]) -> (done: bool)
        requires
            old(self).well_formed(),
            allowance@.len() == old(self).rows().len(),
        ensures
            final(self).well_formed(),
            final(self).same_standing(old(self)),
            done == choices_tabled(
                old(self).rows(),
                old(self).partition(),
                old(self).connectivity(),
                old(self).locks(),
            ),
            done ==> ({
                let moves = refinement(
                    old(self).rows(),
                    old(self).partition(),
                    old(self).connectivity(),
                    old(self).locks(),
                    allowance@,
                );
                &&& final(self).partition() == relocated(
                    old(self).partition(),
                    moves,
                    moves.len() as int,
                )
                &&& follows(
                    old(self).rows(),
                    old(self).partition(),
                    moves,
                    old(self).connectivity(),
                    final(self).connectivity(),
                )
                &&& forall|v: usize| #[trigger]
                    final(self).locks().contains(v) <==> exists|j: int|
                        0 <= j < moves.len() && (#[trigger] moves[j]).vertex == v
            }),
            !done ==> *final(self) == *old(self),
    {
        let ghost rows = self.graph@;
        let n: usize = self.graph.len();
        assert(n == self.graph@.len());
        proof {
            lemma_tracked_moderate(rows, self.start@, self.current@, tables(self.table@));
            law_refinement_respects_locks(
                rows,
                self.current@,
                tables(self.table@),
                self.locked@,
                allowance@,
            );
            assert forall|v: int| 0 <= v < rows.len() implies #[trigger] row_mass(rows, v)
                <= i64::MAX by {
                lemma_row_mass(rows, v);
            }
        }
        match jetlp(
            self.graph,
            self.current.as_slice(),
            &self.table,
            &self.locked,
            allowance,
        ) {
            Some(moves) => {
                self.locked = get_locked_vertices(&moves);
                self.apply(&moves);
                true
            },
            None => false,
        }
    }

    /// A round of rebalancing, with given picks of light parts for the
    /// vertices that have no neighbor in one.
    ///
    /// Nothing happens and the result is false if a vertex that has to leave
    /// finds no place.
    pub fn rebalance<F: Fn(Double, Double) -> Double>(
        &mut self,
        vertex_weights: &[Double],
        load: &Load,
        picks: &[usize],
        plus: F,
    ) -> (done: bool)
        requires
            old(self).well_formed(),
            vertex_weights@.len() == old(self).rows().len(),
            load.consistent(),
            picks_fit(*load, picks@, old(self).rows().len()),
            forall|a: Double, b: Double| call_requires(plus, (a, b)),
        ensures
            final(self).well_formed(),
            final(self).same_standing(old(self)),
            final(self).locks() == old(self).locks(),
            done == all_housed(
                old(self).rows(),
                old(self).partition(),
                vertex_weights@,
                old(self).connectivity(),
                *load,
            ),
            done ==> rebalanced(plus, *old(self), *final(self), vertex_weights@, *load, picks@),
            !done ==> *final(self) == *old(self),
    {
        proof {
            lemma_tracked_moderate(
                self.graph@,
                self.start@,
                self.current@,
                tables(self.table@),
            );
        }
        let n: usize = self.graph.len();
        assert(n == self.graph@.len());
        match rebalance(
            self.graph,
            self.current.as_slice(),
            vertex_weights,
            &self.table,
            load,
            picks,
            plus,
        ) {
            Some(moves) => {
                proof {
                    law_rebalancing_unloads_heavy_parts(
                        plus,
                        self.graph@,
                        self.current@,
                        vertex_weights@,
                        tables(self.table@),
                        *load,
                        picks@,
                        moves@,
                    );
                }
                self.apply(&moves);
                true
            },
            None => false,
        }
    }

    /// A round of rebalancing, with random picks of light parts for the
    /// vertices that have no neighbor in one.
    ///
    /// Nothing happens and the result is false if a vertex that has to leave
    /// finds no place.
    pub fn rebalance_at_random<F: Fn(Double, Double) -> Double>(
        &mut self,
        vertex_weights: &[Double],
        load: &Load,
        plus: F,
    ) -> (done: bool)
        requires
            old(self).well_formed(),
            vertex_weights@.len() == old(self).rows().len(),
            load.consistent(),
            forall|a: Double, b: Double| call_requires(plus, (a, b)),
        ensures
            final(self).well_formed(),
            final(self).same_standing(old(self)),
            final(self).locks() == old(self).locks(),
            done == all_housed(
                old(self).rows(),
                old(self).partition(),
                vertex_weights@,
                old(self).connectivity(),
                *load,
            ),
            done ==> exists|picks: Seq<usize>| #[trigger]
                picks_fit(*load, picks, old(self).rows().len()) && rebalanced(
                    plus,
                    *old(self),
                    *final(self),
                    vertex_weights@,
                    *load,
                    picks,
                ),
            !done ==> *final(self) == *old(self),
    {
        proof {
            lemma_tracked_moderate(
                self.graph@,
                self.start@,
                self.current@,
                tables(self.table@),
            );
        }
        let n: usize = self.graph.len();
        assert(n == self.graph@.len());
        let ghost before = *self;
        match jetrw(
            self.graph,
            self.current.as_slice(),
            vertex_weights,
            &self.table,
            load,
            plus,
        ) {
            Some(moves) => {
                let ghost picks = choose|picks: Seq<usize>| #[trigger]
                    picks_fit(*load, picks, before.rows().len()) && rebalances(
                        plus,
                        before.rows(),
                        before.partition(),
                        vertex_weights@,
                        before.connectivity(),
                        *load,
                        picks,
                        moves@,
                    );
                proof {
                    law_rebalancing_unloads_heavy_parts(
                        plus,
                        self.graph@,
                        self.current@,
                        vertex_weights@,
                        tables(self.table@),
                        *load,
                        picks,
                        moves@,
                    );
                }
                self.apply(&moves);
                assert(rebalanced(plus, before, *self, vertex_weights@, *load, picks));
                true
            },
            None => false,
        }
    }

    /// The current partition is better than the best one so far: a balanced
    /// partition has to have a smaller edge cut, any other to be less
    /// imbalanced.
    pub open spec fn improves(&self, imbalance: Double) -> bool {
        if imbalance.lt(self.configuration().balance_factor) {
            cut(self.rows(), self.partition()) < cut(self.rows(), self.best_partition())
        } else {
            imbalance.lt(self.least_imbalance())
        }
    }

    /// The improvement is a marked one: it is one of the imbalance, or the
    /// edge cut is below its bound.
    pub open spec fn improves_markedly(
        &self,
        imbalance: Double,
        edge_cut: Double,
        bound: Double,
    ) -> bool {
        self.improves(imbalance) && (imbalance.lt(self.configuration().balance_factor)
            ==> edge_cut.lt(bound))
    }

    /// The state `next` comes from this one by the end of a round: a better
    /// partition becomes the best one, and the round counts unless the
    /// improvement is a marked one.
    pub open spec fn settles_to(
        &self,
        imbalance: Double,
        edge_cut: Double,
        bound: Double,
        next: &JetState<'a>,
    ) -> bool {
        &&& next.rows() == self.rows()
        &&& next.configuration() == self.configuration()
        &&& next.partition() == self.partition()
        &&& next.connectivity() == self.connectivity()
        &&& next.locks() == self.locks()
        &&& next.imbalance() == imbalance
        &&& next.best_partition() == if self.improves(imbalance) {
            self.partition()
        } else {
            self.best_partition()
        }
        &&& next.least_imbalance() == if self.improves(imbalance) {
            imbalance
        } else {
            self.least_imbalance()
        }
        &&& next.rounds() == if self.improves_markedly(imbalance, edge_cut, bound) {
            0
        } else {
            self.rounds() + 1
        }
    }

    /// The best partition so far is balanced.
    pub open spec fn best_balanced(&self) -> bool {
        self.least_imbalance().lt(self.configuration().balance_factor)
    }

    /// Whether the best partition so far still has to be balanced.
    pub open spec fn to_balance(&self) -> int {
        if self.best_balanced() {
            0
        } else {
            1
        }
    }

    /// How far the imbalance of the best partition so far can fall, as long as
    /// it has to be balanced.
    pub open spec fn to_even_out(&self) -> int {
        if self.best_balanced() {
            0
        } else {
            self.least_imbalance().place() + 0x8000_0000_0000_0000
        }
    }

    /// How far the edge cut of the best partition so far can fall.
    pub open spec fn to_cut(&self) -> int {
        cut(self.rows(), self.best_partition()) + mass(self.rows())
    }

    /// How many rounds without a marked improvement are left.
    pub open spec fn to_wait(&self) -> int {
        self.configuration().iterations - self.rounds()
    }

    /// Ends a round: keeps the current partition if it is better than the best
    /// one so far, and counts the round unless the improvement is a marked
    /// one.
    ///
    /// `imbalance` is the imbalance of the current partition, `edge_cut` its
    /// edge cut as a double, and `bound` the tolerance factor times the edge
    /// cut of the best partition so far. Each round brings the end nearer.
    pub fn settle(&mut self, imbalance: Double, edge_cut: Double, bound: Double)
        requires
            old(self).well_formed(),
            old(self).rounds() < old(self).configuration().iterations,
        ensures
            final(self).well_formed(),
            old(self).settles_to(imbalance, edge_cut, bound, final(self)),
            decreases_to!(
                old(self).to_balance(), old(self).to_even_out(), old(self).to_cut(),
                old(self).to_wait() =>
                final(self).to_balance(), final(self).to_even_out(), final(self).to_cut(),
                final(self).to_wait()
            ),
    {
        proof {
            lemma_cut_bound(self.graph@, self.current@);
            lemma_cut_bound(self.graph@, self.best@);
        }
        self.current_imbalance = imbalance;
        if imbalance.less(&self.settings.balance_factor) {
            let (now, best) = self.edge_cuts();
            if now < best {
                self.best = slice_to_vec(self.current.as_slice());
                self.best_imbalance = imbalance;
                if edge_cut.less(&bound) {
                    self.counter = 0;
                } else {
                    self.counter = self.counter + 1;
                }
            } else {
                self.counter = self.counter + 1;
            }
        } else if imbalance.less(&self.best_imbalance) {
            self.best = slice_to_vec(self.current.as_slice());
            self.best_imbalance = imbalance;
            self.counter = 0;
        } else {
            self.counter = self.counter + 1;
        }
    }

    /// The best partition.
    pub fn finish(self) -> (partition: Vec<usize>)
        ensures
            partition@ == self.best_partition(),
    {
        self.best
    }
}

/// The state `after` comes from `before` by the moves of a rebalancing.
pub open spec fn rebalanced<'a, F: Fn(Double, Double) -> Double>(
    plus: F,
    before: JetState<'a>,
    after: JetState<'a>,
    weights: Seq<Double>,
    load: Load,
    picks: Seq<usize>,
) -> bool {
    exists|moves: Seq<Move>| #[trigger]
        rebalances(
            plus,
            before.rows(),
            before.partition(),
            weights,
            before.connectivity(),
            load,
            picks,
            moves,
        ) && after.partition() == relocated(before.partition(), moves, moves.len() as int)
            && follows(
            before.rows(),
            before.partition(),
            moves,
            before.connectivity(),
            after.connectivity(),
        )
}

} // verus!
