//! Which of the vertices that could leave the heavy parts do leave them.

use crate::connectivity::Move;
use crate::double::Double;
use crate::slots::{
    calculate_slot, get_index_for_bucket, init_bucket, lemma_slot_range, slot, MAX_SLOTS,
    SLOTS_PER_PART,
};
use crate::tracking::distinct_vertices;
use crate::weights::{lemma_running_step, running, weights_of};
use vstd::prelude::*;

verus! {

/// The bucket of vertex `v`: the slot of its loss among the slots of its part.
pub open spec fn bucket_of(part: Seq<usize>, heavy: Seq<usize>, loss: Seq<i64>, v: int) -> int {
    heavy.index_of(part[v]) * SLOTS_PER_PART + slot(loss[v] as int, MAX_SLOTS as int)
}

/// The vertices of heavy parts among the first `n` whose bucket is `b`, in
/// order.
pub open spec fn bucket(
    part: Seq<usize>,
    heavy: Seq<usize>,
    loss: Seq<i64>,
    b: int,
    n: int,
) -> Seq<usize>
    decreases n,
{
    if n <= 0 {
        Seq::empty()
    } else if heavy.contains(part[n - 1]) && bucket_of(part, heavy, loss, n - 1) == b {
        bucket(part, heavy, loss, b, n - 1).push((n - 1) as usize)
    } else {
        bucket(part, heavy, loss, b, n - 1)
    }
}

/// The vertices in the first `s` slots of the heavy part number `i`, slot by
/// slot.
pub open spec fn queue(
    part: Seq<usize>,
    heavy: Seq<usize>,
    loss: Seq<i64>,
    i: int,
    s: int,
) -> Seq<usize>
    decreases s,
{
    if s <= 0 {
        Seq::empty()
    } else {
        queue(part, heavy, loss, i, s - 1) + bucket(
            part,
            heavy,
            loss,
            i * SLOTS_PER_PART + (s - 1),
            part.len() as int,
        )
    }
}

/// The moves of those of the first `k` vertices of a queue with which the
/// running sum of their weights stays below the excess.
pub open spec fn unloaded(
    line: Seq<usize>,
    dest: Seq<usize>,
    sums: Seq<Double>,
    excess: Double,
    k: int,
) -> Seq<Move>
    decreases k,
{
    if k <= 0 {
        Seq::empty()
    } else if sums[k].lt(excess) {
        unloaded(line, dest, sums, excess, k - 1).push(
            Move { vertex: line[k - 1], partition_id: dest[line[k - 1] as int] },
        )
    } else {
        unloaded(line, dest, sums, excess, k - 1)
    }
}

/// The moves out of the first `i` heavy parts; `sums` holds the running sums
/// of each of them.
pub open spec fn all_unloaded(
    part: Seq<usize>,
    heavy: Seq<usize>,
    loss: Seq<i64>,
    dest: Seq<usize>,
    excesses: Seq<Double>,
    sums: Seq<Seq<Double>>,
    i: int,
) -> Seq<Move>
    decreases i,
{
    if i <= 0 {
        Seq::empty()
    } else {
        let line = queue(part, heavy, loss, i - 1, SLOTS_PER_PART as int);
        all_unloaded(part, heavy, loss, dest, excesses, sums, i - 1) + unloaded(
            line,
            dest,
            sums[i - 1],
            excesses[heavy[i - 1] as int],
            line.len() as int,
        )
    }
}

/// `sums` holds, for each heavy part, running sums of the weights of the
/// vertices in its slots.
pub open spec fn unload_sums<F: Fn(Double, Double) -> Double>(
    plus: F,
    part: Seq<usize>,
    heavy: Seq<usize>,
    loss: Seq<i64>,
    weights: Seq<Double>,
    sums: Seq<Seq<Double>>,
) -> bool {
    &&& sums.len() == heavy.len()
    &&& forall|i: int|
        0 <= i < heavy.len() ==> running(
            plus,
            weights_of(queue(part, heavy, loss, i, SLOTS_PER_PART as int), weights),
            #[trigger] sums[i],
        )
}

/// The vertices of a bucket are the vertices of heavy parts with that bucket,
/// in ascending order.
pub proof fn lemma_bucket(
    part: Seq<usize>,
    heavy: Seq<usize>,
    loss: Seq<i64>,
    b: int,
    n: int,
)
    requires
        0 <= n <= part.len(),
        n <= usize::MAX,
    ensures
        forall|k: int|
            0 <= k < bucket(part, heavy, loss, b, n).len() ==> ({
                let v = #[trigger] bucket(part, heavy, loss, b, n)[k];
                v < n && heavy.contains(part[v as int]) && bucket_of(part, heavy, loss, v as int)
                    == b
            }),
        forall|j: int, k: int|
            0 <= j < k < bucket(part, heavy, loss, b, n).len() ==> #[trigger] bucket(
                part,
                heavy,
                loss,
                b,
                n,
            )[j] < #[trigger] bucket(part, heavy, loss, b, n)[k],
        forall|v: usize|
            v < n && heavy.contains(part[v as int]) && bucket_of(part, heavy, loss, v as int) == b
                ==> #[trigger] bucket(part, heavy, loss, b, n).contains(v),
    decreases n,
{
    if n > 0 {
        lemma_bucket(part, heavy, loss, b, n - 1);
        let list = bucket(part, heavy, loss, b, n);
        let before = bucket(part, heavy, loss, b, n - 1);
        assert forall|k: int| 0 <= k < list.len() implies ({
            let v = #[trigger] list[k];
            v < n && heavy.contains(part[v as int]) && bucket_of(part, heavy, loss, v as int) == b
        }) by {
            if k < before.len() {
                assert(list[k] == before[k]);
            }
        }
        assert forall|j: int, k: int| 0 <= j < k < list.len() implies #[trigger] list[j]
            < #[trigger] list[k] by {
            assert(list[j] == before[j]);
            if k < before.len() {
                assert(list[k] == before[k]);
            }
        }
        assert forall|v: usize|
            v < n && heavy.contains(part[v as int]) && bucket_of(part, heavy, loss, v as int)
                == b implies #[trigger] list.contains(v) by {
            if v < n - 1 {
                assert(before.contains(v));
                let k = choose|k: int| 0 <= k < before.len() && before[k] == v;
                assert(list[k] == v);
            } else {
                assert(list[before.len() as int] == v);
            }
        }
    }
}

/// The vertices in the slots of a heavy part are the vertices of heavy parts
/// with a bucket among those slots, each once, in the order of the buckets.
pub proof fn lemma_queue(part: Seq<usize>, heavy: Seq<usize>, loss: Seq<i64>, i: int, s: int)
    requires
        s >= 0,
        part.len() <= usize::MAX,
    ensures
        forall|k: int|
            0 <= k < queue(part, heavy, loss, i, s).len() ==> ({
                let v = #[trigger] queue(part, heavy, loss, i, s)[k];
                v < part.len() && heavy.contains(part[v as int]) && i * SLOTS_PER_PART <= bucket_of(
                    part,
                    heavy,
                    loss,
                    v as int,
                ) < i * SLOTS_PER_PART + s
            }),
        forall|j: int, k: int|
            0 <= j < k < queue(part, heavy, loss, i, s).len() ==> #[trigger] queue(
                part,
                heavy,
                loss,
                i,
                s,
            )[j] != #[trigger] queue(part, heavy, loss, i, s)[k],
        forall|j: int, k: int|
            0 <= j < k < queue(part, heavy, loss, i, s).len() ==> ({
                let first = #[trigger] queue(part, heavy, loss, i, s)[j];
                let second = #[trigger] queue(part, heavy, loss, i, s)[k];
                let one = bucket_of(part, heavy, loss, first as int);
                let other = bucket_of(part, heavy, loss, second as int);
                one < other || (one == other && first < second)
            }),
        forall|v: usize|
            v < part.len() && heavy.contains(part[v as int]) && i * SLOTS_PER_PART <= bucket_of(
                part,
                heavy,
                loss,
                v as int,
            ) < i * SLOTS_PER_PART + s ==> #[trigger] queue(part, heavy, loss, i, s).contains(v),
    decreases s,
{
    if s > 0 {
        lemma_queue(part, heavy, loss, i, s - 1);
        lemma_bucket(part, heavy, loss, i * SLOTS_PER_PART + (s - 1), part.len() as int);
        let line = queue(part, heavy, loss, i, s);
        let before = queue(part, heavy, loss, i, s - 1);
        let last = bucket(part, heavy, loss, i * SLOTS_PER_PART + (s - 1), part.len() as int);
        assert forall|k: int| 0 <= k < line.len() implies ({
            let v = #[trigger] line[k];
            v < part.len() && heavy.contains(part[v as int]) && i * SLOTS_PER_PART <= bucket_of(
                part,
                heavy,
                loss,
                v as int,
            ) < i * SLOTS_PER_PART + s
        }) by {
            if k < before.len() {
                assert(line[k] == before[k]);
            } else {
                assert(line[k] == last[k - before.len()]);
            }
        }
        assert forall|j: int, k: int| 0 <= j < k < line.len() implies #[trigger] line[j]
            != #[trigger] line[k] by {
            if k < before.len() {
                assert(line[j] == before[j]);
                assert(line[k] == before[k]);
            } else if j < before.len() {
                assert(line[j] == before[j]);
                assert(line[k] == last[k - before.len()]);
            } else {
                assert(line[j] == last[j - before.len()]);
                assert(line[k] == last[k - before.len()]);
            }
        }
        assert forall|j: int, k: int| 0 <= j < k < line.len() implies ({
            let first = #[trigger] line[j];
            let second = #[trigger] line[k];
            let one = bucket_of(part, heavy, loss, first as int);
            let other = bucket_of(part, heavy, loss, second as int);
            one < other || (one == other && first < second)
        }) by {
            if k < before.len() {
                assert(line[j] == before[j]);
                assert(line[k] == before[k]);
            } else if j < before.len() {
                assert(line[j] == before[j]);
                assert(line[k] == last[k - before.len()]);
            } else {
                assert(line[j] == last[j - before.len()]);
                assert(line[k] == last[k - before.len()]);
            }
        }
        assert forall|v: usize|
            v < part.len() && heavy.contains(part[v as int]) && i * SLOTS_PER_PART <= bucket_of(
                part,
                heavy,
                loss,
                v as int,
            ) < i * SLOTS_PER_PART + s implies #[trigger] line.contains(v) by {
            if bucket_of(part, heavy, loss, v as int) < i * SLOTS_PER_PART + (s - 1) {
                assert(before.contains(v));
                let k = choose|k: int| 0 <= k < before.len() && before[k] == v;
                assert(line[k] == v);
            } else {
                assert(last.contains(v));
                let k = choose|k: int| 0 <= k < last.len() && last[k] == v;
                assert(line[before.len() + k] == v);
            }
        }
    }
}

/// The queue of a heavy part holds the vertices of that part and no others,
/// each once. They stand in the order of the slots of their losses, so that
/// those that make the edge cut grow least come first, and within a slot in
/// ascending order.
pub proof fn law_queue_is_own_part_by_loss(
    part: Seq<usize>,
    heavy: Seq<usize>,
    loss: Seq<i64>,
    i: int,
)
    requires
        0 <= i < heavy.len(),
        heavy.no_duplicates(),
        part.len() <= usize::MAX,
    ensures
        forall|v: usize| #[trigger]
            queue(part, heavy, loss, i, SLOTS_PER_PART as int).contains(v) <==> v < part.len()
                && part[v as int] == heavy[i],
        queue(part, heavy, loss, i, SLOTS_PER_PART as int).no_duplicates(),
        forall|j: int, k: int|
            0 <= j < k < queue(part, heavy, loss, i, SLOTS_PER_PART as int).len() ==> ({
                let first = #[trigger] queue(part, heavy, loss, i, SLOTS_PER_PART as int)[j];
                let second = #[trigger] queue(part, heavy, loss, i, SLOTS_PER_PART as int)[k];
                let one = slot(loss[first as int] as int, MAX_SLOTS as int);
                let other = slot(loss[second as int] as int, MAX_SLOTS as int);
                one < other || (one == other && first < second)
            }),
{
    let line = queue(part, heavy, loss, i, SLOTS_PER_PART as int);
    lemma_queue(part, heavy, loss, i, SLOTS_PER_PART as int);
    assert forall|k: int| 0 <= k < line.len() implies part[#[trigger] line[k] as int] == heavy[i]
        && bucket_of(part, heavy, loss, line[k] as int) == i * SLOTS_PER_PART + slot(
        loss[line[k] as int] as int,
        MAX_SLOTS as int,
    ) by {
        let v = line[k] as int;
        lemma_slot_range(loss[v] as int, MAX_SLOTS as int);
        let x = heavy.index_of(part[v]);
        assert(heavy[x] == part[v]);
    }
    assert forall|v: usize| #[trigger]
        line.contains(v) <==> v < part.len() && part[v as int] == heavy[i] by {
        if line.contains(v) {
            let k = choose|k: int| 0 <= k < line.len() && line[k] == v;
            assert(part[line[k] as int] == heavy[i]);
        }
        if v < part.len() && part[v as int] == heavy[i] {
            lemma_slot_range(loss[v as int] as int, MAX_SLOTS as int);
            assert(heavy.contains(heavy[i]));
            assert(heavy.index_of(part[v as int]) == i);
        }
    }
}

proof fn lemma_unloaded_prefix(
    line: Seq<usize>,
    longer: Seq<usize>,
    dest: Seq<usize>,
    sums: Seq<Double>,
    more: Seq<Double>,
    excess: Double,
    k: int,
)
    requires
        k <= line.len() <= longer.len(),
        line.len() < sums.len() <= more.len(),
        forall|j: int| 0 <= j < line.len() ==> #[trigger] line[j] == longer[j],
        forall|j: int| 0 <= j < sums.len() ==> #[trigger] sums[j] == more[j],
    ensures
        unloaded(line, dest, sums, excess, k) == unloaded(longer, dest, more, excess, k),
    decreases k,
{
    if k > 0 {
        lemma_unloaded_prefix(line, longer, dest, sums, more, excess, k - 1);
        assert(line[k - 1] == longer[k - 1]);
        assert(sums[k] == more[k]);
    }
}

proof fn lemma_all_unloaded_prefix(
    part: Seq<usize>,
    heavy: Seq<usize>,
    loss: Seq<i64>,
    dest: Seq<usize>,
    excesses: Seq<Double>,
    sums: Seq<Seq<Double>>,
    more: Seq<Seq<Double>>,
    i: int,
)
    requires
        i <= sums.len() <= more.len(),
        forall|j: int| 0 <= j < sums.len() ==> #[trigger] sums[j] == more[j],
    ensures
        all_unloaded(part, heavy, loss, dest, excesses, sums, i) == all_unloaded(
            part,
            heavy,
            loss,
            dest,
            excesses,
            more,
            i,
        ),
    decreases i,
{
    if i > 0 {
        lemma_all_unloaded_prefix(part, heavy, loss, dest, excesses, sums, more, i - 1);
        assert(sums[i - 1] == more[i - 1]);
    }
}

proof fn lemma_unloaded(
    line: Seq<usize>,
    dest: Seq<usize>,
    sums: Seq<Double>,
    excess: Double,
    k: int,
)
    requires
        0 <= k <= line.len(),
        forall|i: int, j: int|
            0 <= i < j < line.len() ==> #[trigger] line[i] != #[trigger] line[j],
    ensures
        forall|j: int|
            0 <= j < unloaded(line, dest, sums, excess, k).len() ==> ({
                let step = #[trigger] unloaded(line, dest, sums, excess, k)[j];
                line.take(k).contains(step.vertex) && step.partition_id
                    == dest[step.vertex as int]
            }),
        distinct_vertices(unloaded(line, dest, sums, excess, k)),
    decreases k,
{
    if k > 0 {
        lemma_unloaded(line, dest, sums, excess, k - 1);
        let moves = unloaded(line, dest, sums, excess, k);
        let before = unloaded(line, dest, sums, excess, k - 1);
        assert forall|j: int| 0 <= j < before.len() implies (#[trigger] before[j]).vertex
            != line[k - 1] && line.take(k).contains(before[j].vertex) by {
            assert(line.take(k - 1).contains(before[j].vertex));
            let shorter = line.take(k - 1);
            let x = choose|x: int| 0 <= x < shorter.len() && shorter[x] == before[j].vertex;
            assert(line[x] != line[k - 1]);
            assert(line.take(k)[x] == line[x]);
        }
        assert(line.take(k)[k - 1] == line[k - 1]);
        assert forall|j: int| 0 <= j < moves.len() implies ({
            let step = #[trigger] moves[j];
            line.take(k).contains(step.vertex) && step.partition_id == dest[step.vertex as int]
        }) by {
            if j < before.len() {
                assert(moves[j] == before[j]);
            }
        }
        assert forall|i: int, j: int| 0 <= i < j < moves.len() implies (
        #[trigger] moves[i]).vertex != (#[trigger] moves[j]).vertex by {
            assert(moves[i] == before[i]);
            if j < before.len() {
                assert(moves[j] == before[j]);
            }
        }
    }
}

/// Every vertex that leaves is a vertex of a heavy part, goes where it was
/// meant to go, and leaves only once.
pub proof fn law_unloaded_are_heavy(
    part: Seq<usize>,
    heavy: Seq<usize>,
    loss: Seq<i64>,
    dest: Seq<usize>,
    excesses: Seq<Double>,
    sums: Seq<Seq<Double>>,
    i: int,
)
    requires
        i >= 0,
        part.len() <= usize::MAX,
    ensures
        forall|j: int|
            0 <= j < all_unloaded(part, heavy, loss, dest, excesses, sums, i).len() ==> ({
                let step = #[trigger] all_unloaded(
                    part,
                    heavy,
                    loss,
                    dest,
                    excesses,
                    sums,
                    i,
                )[j];
                &&& step.vertex < part.len()
                &&& heavy.contains(part[step.vertex as int])
                &&& step.partition_id == dest[step.vertex as int]
                &&& bucket_of(part, heavy, loss, step.vertex as int) < i * SLOTS_PER_PART
            }),
        distinct_vertices(all_unloaded(part, heavy, loss, dest, excesses, sums, i)),
    decreases i,
{
    if i > 0 {
        law_unloaded_are_heavy(part, heavy, loss, dest, excesses, sums, i - 1);
        let line = queue(part, heavy, loss, i - 1, SLOTS_PER_PART as int);
        lemma_queue(part, heavy, loss, i - 1, SLOTS_PER_PART as int);
        let n = line.len() as int;
        let excess = excesses[heavy[i - 1] as int];
        lemma_unloaded(line, dest, sums[i - 1], excess, n);
        let before = all_unloaded(part, heavy, loss, dest, excesses, sums, i - 1);
        let last = unloaded(line, dest, sums[i - 1], excess, n);
        let moves = all_unloaded(part, heavy, loss, dest, excesses, sums, i);
        assert(moves == before + last);
        assert forall|j: int| 0 <= j < last.len() implies ({
            let step = #[trigger] last[j];
            &&& step.vertex < part.len()
            &&& heavy.contains(part[step.vertex as int])
            &&& step.partition_id == dest[step.vertex as int]
            &&& (i - 1) * SLOTS_PER_PART <= bucket_of(part, heavy, loss, step.vertex as int) < i
                * SLOTS_PER_PART
        }) by {
            assert(line.take(n) == line);
            assert(line.take(n).contains(last[j].vertex));
            let x = choose|x: int| 0 <= x < line.len() && line[x] == last[j].vertex;
            assert(line[x] == last[j].vertex);
        }
        assert forall|j: int| 0 <= j < moves.len() implies ({
            let step = #[trigger] moves[j];
            &&& step.vertex < part.len()
            &&& heavy.contains(part[step.vertex as int])
            &&& step.partition_id == dest[step.vertex as int]
            &&& bucket_of(part, heavy, loss, step.vertex as int) < i * SLOTS_PER_PART
        }) by {
            if j < before.len() {
                assert(moves[j] == before[j]);
            } else {
                assert(moves[j] == last[j - before.len()]);
            }
        }
        assert forall|a: int, b: int| 0 <= a < b < moves.len() implies (
        #[trigger] moves[a]).vertex != (#[trigger] moves[b]).vertex by {
            if b < before.len() {
                assert(moves[a] == before[a]);
                assert(moves[b] == before[b]);
            } else if a < before.len() {
                assert(moves[a] == before[a]);
                assert(moves[b] == last[b - before.len()]);
                assert(bucket_of(part, heavy, loss, before[a].vertex as int) < (i - 1)
                    * SLOTS_PER_PART);
            } else {
                assert(moves[a] == last[a - before.len()]);
                assert(moves[b] == last[b - before.len()]);
            }
        }
    }
}

/// The place of a number in a list.
fn position(list: &[usize], x: usize) -> (place: Option<usize>)
    requires
        list@.no_duplicates(),
    ensures
        place is Some <==> list@.contains(x),
        place matches Some(i) ==> i < list@.len() && i == list@.index_of(x),
{
    let mut i: usize = 0;
    while i < list.len()
        invariant
            i <= list@.len(),
            list@.no_duplicates(),
            forall|j: int| 0 <= j < i ==> list@[j] != x,
        decreases list@.len() - i,
    {
        if list[i] == x {
            assert(list@[i as int] == x);
            assert(list@.contains(x));
            return Some(i);
        }
        i += 1;
    }
    None
}

/// Puts the vertices of heavy parts into buckets.
fn fill_buckets(partitions: &[usize], heavy: &[usize], loss: &[i64]) -> (buckets: Vec<Vec<usize>>)
    requires
        loss@.len() == partitions@.len(),
        heavy@.no_duplicates(),
        heavy@.len() * SLOTS_PER_PART <= usize::MAX,
    ensures
        buckets@.len() == heavy@.len() * SLOTS_PER_PART,
        forall|b: int|
            0 <= b < buckets@.len() ==> (#[trigger] buckets@[b])@ == bucket(
                partitions@,
                heavy@,
                loss@,
                b,
                partitions@.len() as int,
            ),
{
    let ghost part = partitions@;
    let mut buckets: Vec<Vec<usize>> = init_bucket(heavy.len(), SLOTS_PER_PART);
    let mut v: usize = 0;
    while v < partitions.len()
        invariant
            v <= part.len(),
            part == partitions@,
            loss@.len() == part.len(),
            heavy@.no_duplicates(),
            heavy@.len() * SLOTS_PER_PART <= usize::MAX,
            buckets@.len() == heavy@.len() * SLOTS_PER_PART,
            forall|b: int|
                0 <= b < buckets@.len() ==> (#[trigger] buckets@[b])@ == bucket(
                    part,
                    heavy@,
                    loss@,
                    b,
                    v as int,
                ),
        decreases part.len() - v,
    {
        match position(heavy, partitions[v]) {
            Some(index) => {
                let s: usize = calculate_slot(loss[v], MAX_SLOTS);
                proof {
                    lemma_slot_range(loss@[v as int] as int, MAX_SLOTS as int);
                }
                let b: usize = get_index_for_bucket(index, s, SLOTS_PER_PART);
                let ghost before = buckets@;
                assert(b == bucket_of(part, heavy@, loss@, v as int));
                let line: &mut Vec<usize> = &mut buckets[b];
                line.push(v);
                assert forall|x: int| 0 <= x < buckets@.len() implies (#[trigger] buckets@[x])@
                    == bucket(part, heavy@, loss@, x, v + 1) by {
                    assert(before[x]@ == bucket(part, heavy@, loss@, x, v as int));
                }
            },
            None => {
                assert forall|x: int| 0 <= x < buckets@.len() implies (#[trigger] buckets@[x])@
                    == bucket(part, heavy@, loss@, x, v + 1) by {}
            },
        }
        v += 1;
    }
    buckets
}

/// Chooses the vertices that leave the heavy parts.
///
/// The vertices of each heavy part queue up by the slots of their losses, and
/// a vertex leaves if the weights up to and with its own stay below the excess
/// of its part.
pub fn unload<F: Fn(Double, Double) -> Double>(
    partitions: &[usize],
    heavy: &[usize],
    loss: &[i64],
    dest: &[usize],
    weights: &[Double],
    excesses: &[Double],
    plus: F,
) -> (moves: Vec<Move>)
    requires
        loss@.len() == partitions@.len(),
        dest@.len() == partitions@.len(),
        weights@.len() == partitions@.len(),
        heavy@.no_duplicates(),
        heavy@.len() * SLOTS_PER_PART <= usize::MAX,
        forall|i: int| 0 <= i < heavy@.len() ==> #[trigger] heavy@[i] < excesses@.len(),
        forall|a: Double, b: Double| call_requires(plus, (a, b)),
    ensures
        exists|sums: Seq<Seq<Double>>| #[trigger]
            unload_sums(plus, partitions@, heavy@, loss@, weights@, sums) && moves@ == all_unloaded(
                partitions@,
                heavy@,
                loss@,
                dest@,
                excesses@,
                sums,
                heavy@.len() as int,
            ),
{
    let ghost part = partitions@;
    let buckets: Vec<Vec<usize>> = fill_buckets(partitions, heavy, loss);
    let mut moves: Vec<Move> = Vec::new();
    let ghost mut all_sums: Seq<Seq<Double>> = Seq::empty();
    let mut i: usize = 0;
    while i < heavy.len()
        invariant
            i <= heavy@.len(),
            part == partitions@,
            dest@.len() == part.len(),
            weights@.len() == part.len(),
            heavy@.len() * SLOTS_PER_PART <= usize::MAX,
            forall|j: int| 0 <= j < heavy@.len() ==> #[trigger] heavy@[j] < excesses@.len(),
            forall|a: Double, b: Double| call_requires(plus, (a, b)),
            buckets@.len() == heavy@.len() * SLOTS_PER_PART,
            forall|b: int|
                0 <= b < buckets@.len() ==> (#[trigger] buckets@[b])@ == bucket(
                    part,
                    heavy@,
                    loss@,
                    b,
                    part.len() as int,
                ),
            all_sums.len() == i,
            forall|j: int|
                0 <= j < i ==> running(
                    plus,
                    weights_of(queue(part, heavy@, loss@, j, SLOTS_PER_PART as int), weights@),
                    #[trigger] all_sums[j],
                ),
            moves@ == all_unloaded(
                part,
                heavy@,
                loss@,
                dest@,
                excesses@,
                all_sums,
                i as int,
            ),
        decreases heavy@.len() - i,
    {
        let excess: Double = excesses[heavy[i]];
        let mut m: Double = Double::zero();
        let ghost before = moves@;
        let ghost mut sums: Seq<Double> = seq![m];
        let ghost mut line: Seq<usize> = Seq::empty();
        assert(weights_of(line, weights@) == Seq::<Double>::empty());
        assert(moves@ == before + unloaded(line, dest@, sums, excess, 0));
        let mut s: usize = 0;
        while s < SLOTS_PER_PART
            invariant
                i < heavy@.len(),
                s <= SLOTS_PER_PART,
                part == partitions@,
                dest@.len() == part.len(),
                weights@.len() == part.len(),
                heavy@.len() * SLOTS_PER_PART <= usize::MAX,
                forall|a: Double, b: Double| call_requires(plus, (a, b)),
                buckets@.len() == heavy@.len() * SLOTS_PER_PART,
                forall|b: int|
                    0 <= b < buckets@.len() ==> (#[trigger] buckets@[b])@ == bucket(
                        part,
                        heavy@,
                        loss@,
                        b,
                        part.len() as int,
                    ),
                line == queue(part, heavy@, loss@, i as int, s as int),
                running(plus, weights_of(line, weights@), sums),
                m == sums.last(),
                moves@ == before + unloaded(line, dest@, sums, excess, line.len() as int),
            decreases SLOTS_PER_PART - s,
        {
            let b: usize = get_index_for_bucket(i, s, SLOTS_PER_PART);
            let content: &Vec<usize> = &buckets[b];
            let ghost start = line;
            assert(content@ == bucket(part, heavy@, loss@, b as int, part.len() as int));
            assert(part.len() == partitions.len());
            proof {
                lemma_bucket(part, heavy@, loss@, b as int, part.len() as int);
                assert(start + content@.take(0) == start);
            }
            let mut k: usize = 0;
            while k < content.len()
                invariant
                    k <= content@.len(),
                    dest@.len() == part.len(),
                    weights@.len() == part.len(),
                    forall|j: int| 0 <= j < content@.len() ==> #[trigger] content@[j] < part.len(),
                    forall|a: Double, b: Double| call_requires(plus, (a, b)),
                    line == start + content@.take(k as int),
                    running(plus, weights_of(line, weights@), sums),
                    m == sums.last(),
                    moves@ == before + unloaded(line, dest@, sums, excess, line.len() as int),
                decreases content@.len() - k,
            {
                let vertex: usize = content[k];
                assert(content@[k as int] < part.len());
                m = plus(m, weights[vertex]);
                let ghost longer = line.push(vertex);
                let ghost more = sums.push(m);
                proof {
                    lemma_running_step(
                        plus,
                        weights_of(line, weights@),
                        sums,
                        weights@[vertex as int],
                        m,
                    );
                    assert(weights_of(longer, weights@) == weights_of(line, weights@).push(
                        weights@[vertex as int],
                    ));
                    lemma_unloaded_prefix(
                        line,
                        longer,
                        dest@,
                        sums,
                        more,
                        excess,
                        line.len() as int,
                    );
                    assert(content@.take(k + 1) == content@.take(k as int).push(vertex));
                    assert(longer == start + content@.take(k + 1));
                    assert(more[longer.len() as int] == m);
                    assert(longer[longer.len() - 1] == vertex);
                }
                if m.less(&excess) {
                    moves.push(Move { vertex, partition_id: dest[vertex] });
                }
                proof {
                    assert(moves@ == before + unloaded(
                        longer,
                        dest@,
                        more,
                        excess,
                        longer.len() as int,
                    ));
                    line = longer;
                    sums = more;
                }
                k += 1;
            }
            assert(content@.take(content@.len() as int) == content@);
            s += 1;
        }
        proof {
            let later = all_sums.push(sums);
            lemma_all_unloaded_prefix(
                part,
                heavy@,
                loss@,
                dest@,
                excesses@,
                all_sums,
                later,
                i as int,
            );
            all_sums = later;
        }
        i += 1;
    }
    assert(unload_sums(plus, part, heavy@, loss@, weights@, all_sums));
    moves
}

} // verus!
