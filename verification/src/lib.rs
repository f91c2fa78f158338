//! Partitioning weighted graphs.
//!
//! `jet` and `rounds` improve a partition, `multilevel` partitions a graph by
//! way of coarser ones, and `geometric` separates its vertices by circles. The
//! other modules hold what these three rest on, and what holds of them: `conduct`,
//! `progress`, `propagation`, `shedding` and `burden` speak of rounds, `descent`,
//! `condensation`, `greedy` and `conservation` of levels, `separation` of circles,
//! and `listing` of lists that are picked from others.

pub mod arithmetic;
pub mod bounds;
pub mod burden;
pub mod coarsen;
pub mod condensation;
pub mod conduct;
pub mod connectivity;
pub mod conservation;
pub mod cutting;
pub mod descent;
pub mod double;
pub mod error;
pub mod geometric;
pub mod greedy;
pub mod hierarchy;
pub mod jet;
pub mod listing;
pub mod matching;
pub mod matrix;
pub mod median;
pub mod multilevel;
pub mod progress;
pub mod projection;
pub mod propagation;
pub mod random;
pub mod rebalance;
pub mod refine;
pub mod relocate;
pub mod rounds;
pub mod separation;
pub mod shedding;
pub mod slots;
pub mod topology;
pub mod total;
pub mod tracking;
pub mod uncoarsen;
pub mod unload;
pub mod weights;
