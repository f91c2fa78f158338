//! Why a partitioner can fail.

use vstd::prelude::*;

verus! {

/// The reason why a partitioner has no result.
#[derive(Clone, Copy, Debug, PartialEq, Eq, Structural)]
pub enum Error {
    /// Two inputs that describe the same vertices have different lengths.
    InputLenMismatch {
        /// The length of the partition.
        expected: usize,
        /// The length of the other input.
        actual: usize,
    },
    /// A round broke off: the connectivity table has no entry for a part that a
    /// vertex can move to, or no part is light enough for one that has to leave.
    MissingEntry,
    /// The graph cannot be coarsened any further.
    NotCoarsened,
    /// The graph was coarsened less than twice.
    TooFewLevels,
    /// The projections of the points have no median: there are none, or one of
    /// them is not a number.
    NoMedian,
    /// A group of vertices holds a vertex twice, because the vertex is its own
    /// neighbor.
    SelfLoop,
}

/// The verdict on the lengths of a partition, of the vertex weights and of the
/// graph: the weights are looked at first.
pub open spec fn length_verdict(part_ids: int, weights: int, vertices: int) -> Result<(), Error> {
    if part_ids != weights {
        Err(Error::InputLenMismatch { expected: part_ids as usize, actual: weights as usize })
    } else if part_ids != vertices {
        Err(Error::InputLenMismatch { expected: part_ids as usize, actual: vertices as usize })
    } else {
        Ok(())
    }
}

/// Checks that a partition, the vertex weights and the graph are about the
/// same number of vertices.
pub fn check_lengths(part_ids: usize, weights: usize, vertices: usize) -> (result: Result<
    (),
    Error,
>)
    ensures
        result == length_verdict(part_ids as int, weights as int, vertices as int),
{
    if part_ids != weights {
        return Err(Error::InputLenMismatch { expected: part_ids, actual: weights });
    }
    if part_ids != vertices {
        return Err(Error::InputLenMismatch { expected: part_ids, actual: vertices });
    }
    Ok(())
}

/// Lengths that agree are in order, and no others. The length that is named is
/// that of the weights if it differs from that of the partition, and otherwise
/// the number of vertices.
pub proof fn law_lengths_have_to_agree(
    part_ids: usize,
    weights: usize,
    vertices: usize,
    expected: usize,
    actual: usize,
)
    ensures
        length_verdict(part_ids as int, weights as int, vertices as int) is Ok <==> part_ids
            == weights && part_ids == vertices,
        length_verdict(part_ids as int, weights as int, vertices as int) == Err::<(), Error>(
            Error::InputLenMismatch { expected, actual },
        ) <==> expected == part_ids && actual != part_ids && (actual == weights || (weights
            == part_ids && actual == vertices)),
{
}

} // verus!
