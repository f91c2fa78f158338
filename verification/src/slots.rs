//! Slots that group losses by their order of magnitude.

use vstd::arithmetic::logarithm::{
    lemma_log0, lemma_log_is_ordered, lemma_log_nonnegative, lemma_log_s, log,
};
use vstd::arithmetic::power2::{
    lemma2_to64, lemma_pow2_pos, lemma_pow2_strictly_increases, lemma_pow2_unfold, pow2,
};
use vstd::prelude::*;

verus! {

/// The highest slot.
pub const MAX_SLOTS: usize = 25;

/// The number of slots of a part: from the lowest to the highest.
pub const SLOTS_PER_PART: usize = 26;

/// The slot of a loss: one for gains, one for no loss, and one for each order
/// of magnitude of positive losses, up to a highest slot.
pub open spec fn slot(loss: int, max_slot_size: int) -> int {
    if loss < 0 {
        0
    } else if loss == 0 {
        1
    } else if 2 + log(2, loss) < max_slot_size {
        2 + log(2, loss)
    } else {
        max_slot_size
    }
}

proof fn lemma_log_is_magnitude(x: int)
    requires
        x > 0,
    ensures
        log(2, x) >= 0,
        pow2(log(2, x) as nat) <= x < pow2((log(2, x) + 1) as nat),
    decreases x,
{
    lemma2_to64();
    if x < 2 {
        lemma_log0(2, x);
    } else {
        lemma_log_s(2, x);
        lemma_log_is_magnitude(x / 2);
        let r = log(2, x / 2) as nat;
        lemma_pow2_unfold(r + 1);
        lemma_pow2_unfold(r + 2);
    }
}

/// Slots run from 0 to the highest one.
pub proof fn lemma_slot_range(loss: int, max_slot_size: int)
    requires
        max_slot_size >= 1,
    ensures
        0 <= slot(loss, max_slot_size) <= max_slot_size,
{
    if loss > 0 {
        lemma_log_nonnegative(2, loss);
    }
}

/// Slots keep the order of losses: a smaller loss is never in a higher slot
/// than a greater one.
pub proof fn law_slots_keep_order(low: int, high: int, max_slot_size: int)
    requires
        low <= high,
        max_slot_size >= 1,
    ensures
        slot(low, max_slot_size) <= slot(high, max_slot_size),
{
    if high > 0 {
        lemma_log_nonnegative(2, high);
    }
    if low > 0 {
        lemma_log_is_ordered(2, low, high);
    }
}

/// Below the highest slot, the positive losses of a slot lie between two
/// consecutive powers of two.
pub proof fn law_slots_follow_magnitude(loss: int, max_slot_size: int)
    requires
        loss > 0,
        2 <= slot(loss, max_slot_size) < max_slot_size,
    ensures
        pow2((slot(loss, max_slot_size) - 2) as nat) <= loss < pow2(
            (slot(loss, max_slot_size) - 1) as nat,
        ),
{
    lemma_log_is_magnitude(loss);
}

proof fn lemma_pow2_ordered(low: nat, high: nat)
    requires
        low <= high,
    ensures
        1 <= pow2(low) <= pow2(high),
{
    lemma_pow2_pos(low);
    if low < high {
        lemma_pow2_strictly_increases(low, high);
    }
}

/// Which losses a slot holds: slot 0 the negative ones and slot 1 the loss of
/// zero, each further slot the losses from one power of two up to the next, and
/// the highest slot all greater ones.
pub proof fn law_slots_are_exact(loss: int, max_slot_size: int, s: int)
    requires
        max_slot_size >= 3,
        0 <= s <= max_slot_size,
    ensures
        slot(loss, max_slot_size) == s <==> {
            ||| s == 0 && loss < 0
            ||| s == 1 && loss == 0
            ||| 2 <= s < max_slot_size && pow2((s - 2) as nat) <= loss < pow2((s - 1) as nat)
            ||| s == max_slot_size && loss >= pow2((s - 2) as nat)
        },
{
    lemma2_to64();
    if s >= 2 {
        lemma_pow2_pos((s - 2) as nat);
    }
    if loss > 0 {
        lemma_log_is_magnitude(loss);
        let order = log(2, loss) as nat;
        if s >= 2 {
            let low = (s - 2) as nat;
            if order < low {
                lemma_pow2_ordered(order + 1, low);
            } else {
                lemma_pow2_ordered(low, order);
                if order > low {
                    lemma_pow2_ordered(low + 1, order);
                }
            }
        }
    }
}

/// The slot for a loss.
pub fn calculate_slot(loss: i64, max_slot_size: usize) -> (s: usize)
    ensures
        s == slot(loss as int, max_slot_size as int),
{
    if loss < 0 {
        0
    } else if loss == 0 {
        1
    } else {
        let mut rest: i64 = loss;
        let mut s: usize = 2;
        while rest >= 2 && s < max_slot_size
            invariant
                rest >= 1,
                s >= 2,
                2 + log(2, loss as int) == s + log(2, rest as int),
                s <= max_slot_size || s == 2,
            decreases rest,
        {
            proof {
                lemma_log_s(2, rest as int);
            }
            rest = rest / 2;
            s += 1;
        }
        proof {
            lemma_log_nonnegative(2, rest as int);
            if rest < 2 {
                lemma_log0(2, rest as int);
            }
        }
        if s < max_slot_size {
            s
        } else {
            max_slot_size
        }
    }
}

/// The bucket for a slot of a part.
pub fn get_index_for_bucket(partition_index: usize, slot: usize, max_slots: usize) -> (index: usize)
    requires
        partition_index * max_slots + slot <= usize::MAX,
    ensures
        index == partition_index * max_slots + slot,
{
    assert(partition_index * max_slots >= 0) by (nonlinear_arith);
    partition_index * max_slots + slot
}

/// Empty buckets for the slots of some parts.
pub fn init_bucket(num_heavy_partitions: usize, max_slots: usize) -> (bucket: Vec<Vec<usize>>)
    requires
        num_heavy_partitions * max_slots <= usize::MAX,
    ensures
        bucket@.len() == num_heavy_partitions * max_slots,
        forall|b: int| 0 <= b < bucket@.len() ==> (#[trigger] bucket@[b])@ == Seq::<usize>::empty(),
{
    let rows: usize = num_heavy_partitions * max_slots;
    let mut bucket: Vec<Vec<usize>> = Vec::new();
    while bucket.len() < rows
        invariant
            bucket@.len() <= rows,
            forall|b: int|
                0 <= b < bucket@.len() ==> (#[trigger] bucket@[b])@ == Seq::<usize>::empty(),
        decreases rows - bucket@.len(),
    {
        bucket.push(Vec::new());
    }
    bucket
}

} // verus!
