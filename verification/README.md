# graphpart

Partitioning weighted graphs: assigning each vertex to a part so that the parts
weigh about the same and few edges run between different parts.

- **Jet** (`jet`, `rounds`) improves a partition. Rounds of label propagation
  (`refine`) make the edge cut smaller, rounds of rebalancing (`rebalance`,
  `unload`, `slots`) move weight out of heavy parts. The connectivity table that
  both read is kept up to date move by move (`connectivity`, `relocate`,
  `tracking`, `bounds`, `cutting`). What the rounds achieve is in `progress`.
- **Multilevel** (`multilevel`, `hierarchy`) coarsens a graph by heavy edge
  matching (`matching`, `coarsen`), partitions the coarsest graph, and carries
  the partition back down, refining it on the way (`uncoarsen`). The edge cut
  and the weights of the parts are kept on the way down (`projection`,
  `conservation`).
- **Geometric** (`geometric`, `median`) separates the vertices by the median of
  their projections onto circles on a sphere.

The library is written in Verus: every function has a contract, and the proofs
of the contracts and of the laws (the public proof functions whose names begin
with `law_`) are part of the source.

Doubles appear in the library as bit patterns (`double`). Comparing them is part
of the library, computing with them is not: the caller hands in the operations
(`arithmetic`), and the contracts say which operations are applied to what.
Random numbers and sparse matrices come from the `rand` and `sprs` crates behind
the few trusted functions of `random` and `matrix`; `median` trusts the sort of
the standard library.

`app/` wraps the library for ordinary doubles and `sprs` matrices, and holds the
linear algebra and the layout of the geometric partitioner.
