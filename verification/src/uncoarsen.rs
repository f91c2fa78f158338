//! Carrying a partition of a coarse graph over to the finer graph.

use crate::total::{lemma_total_nonneg, total};
use vstd::prelude::*;

verus! {

/// The groups of fine vertices behind the vertices of a coarse graph.
pub open spec fn groups(mapping: Seq<Vec<usize>>) -> Seq<Seq<usize>> {
    Seq::new(mapping.len(), |c: int| mapping[c]@)
}

/// The number of fine vertices named by the first `c` groups.
pub open spec fn named(mapping: Seq<Seq<usize>>, c: int) -> int {
    total(c, |i: int| mapping[i].len() as int)
}

/// The last of the first `c` groups that names `u`, or -1 if none does.
pub open spec fn last_holder(mapping: Seq<Seq<usize>>, u: usize, c: int) -> int
    decreases c,
{
    if c <= 0 {
        -1
    } else if mapping[c - 1].contains(u) {
        c - 1
    } else {
        last_holder(mapping, u, c - 1)
    }
}

/// The fine partition: each vertex is in the part of the (last) group that
/// names it, and a vertex that no group names is in part 0.
pub open spec fn uncoarse(partition: Seq<usize>, mapping: Seq<Seq<usize>>) -> Seq<usize> {
    Seq::new(
        named(mapping, mapping.len() as int) as nat,
        |u: int|
            if last_holder(mapping, u as usize, mapping.len() as int) < 0 {
                0
            } else {
                partition[last_holder(mapping, u as usize, mapping.len() as int)]
            },
    )
}

/// Every group names vertices below the number of vertices named in all.
pub open spec fn names_fit(mapping: Seq<Seq<usize>>) -> bool {
    forall|c: int, i: int|
        0 <= c < mapping.len() && 0 <= i < mapping[c].len() ==> (#[trigger] mapping[c][i]) < named(
            mapping,
            mapping.len() as int,
        )
}

proof fn lemma_last_holder(mapping: Seq<Seq<usize>>, u: usize, c: int)
    requires
        0 <= c <= mapping.len(),
    ensures
        -1 <= last_holder(mapping, u, c) < c,
        last_holder(mapping, u, c) >= 0 ==> mapping[last_holder(mapping, u, c)].contains(u),
        forall|d: int|
            last_holder(mapping, u, c) < d < c ==> !(#[trigger] mapping[d]).contains(u),
    decreases c,
{
    if c > 0 {
        lemma_last_holder(mapping, u, c - 1);
    }
}

/// A fine vertex is in the part of the coarse vertex that stands for it, the last
/// one if there are several, and in part 0 if none does. There are as many fine
/// vertices as the groups have members.
pub proof fn law_fine_vertex_follows_last_group(
    partition: Seq<usize>,
    mapping: Seq<Seq<usize>>,
    u: int,
    c: int,
)
    requires
        0 <= u < uncoarse(partition, mapping).len(),
        u <= usize::MAX,
    ensures
        uncoarse(partition, mapping).len() == total(
            mapping.len() as int,
            |i: int| mapping[i].len() as int,
        ),
        0 <= c < mapping.len() && mapping[c].contains(u as usize) && (forall|d: int|
            c < d < mapping.len() ==> !(#[trigger] mapping[d]).contains(u as usize)) ==> uncoarse(
            partition,
            mapping,
        )[u] == partition[c],
        (forall|d: int|
            0 <= d < mapping.len() ==> !(#[trigger] mapping[d]).contains(u as usize)) ==> uncoarse(
            partition,
            mapping,
        )[u] == 0,
{
    lemma_last_holder(mapping, u as usize, mapping.len() as int);
    lemma_total_nonneg(mapping.len() as int, |i: int| mapping[i].len() as int);
}

/// Carries a partition of the coarse graph over to the finer graph.
///
/// `vertex_mapping` names, for each coarse vertex, the fine vertices that it
/// stands for.
pub fn partition_uncoarse(partition: &[usize], vertex_mapping: &Vec<Vec<usize>>) -> (fine: Vec<
    usize,
>)
    requires
        vertex_mapping@.len() <= partition@.len(),
        names_fit(groups(vertex_mapping@)),
        named(groups(vertex_mapping@), vertex_mapping@.len() as int) <= usize::MAX,
    ensures
        fine@ == uncoarse(partition@, groups(vertex_mapping@)),
{
    let ghost mapping = groups(vertex_mapping@);
    let ghost size = |i: int| mapping[i].len() as int;
    let mut vertices: usize = 0;
    let mut c: usize = 0;
    proof {
        lemma_total_nonneg(mapping.len() as int, size);
    }
    while c < vertex_mapping.len()
        invariant
            c <= mapping.len(),
            mapping == groups(vertex_mapping@),
            size == (|i: int| mapping[i].len() as int),
            vertices == total(c as int, size),
            total(mapping.len() as int, size) <= usize::MAX,
            forall|m: int|
                0 <= m <= mapping.len() ==> #[trigger] total(m, size) <= total(
                    mapping.len() as int,
                    size,
                ),
        decreases mapping.len() - c,
    {
        assert(total(c + 1, size) == total(c as int, size) + size(c as int));
        assert(total(c + 1, size) <= total(mapping.len() as int, size));
        vertices = vertices + vertex_mapping[c].len();
        c += 1;
    }
    let mut fine: Vec<usize> = vec![0; vertices];
    c = 0;
    while c < vertex_mapping.len()
        invariant
            c <= mapping.len() <= partition@.len(),
            mapping == groups(vertex_mapping@),
            names_fit(mapping),
            fine@.len() == vertices == named(mapping, mapping.len() as int),
            forall|u: int|
                0 <= u < fine@.len() ==> #[trigger] fine@[u] == (if last_holder(
                    mapping,
                    u as usize,
                    c as int,
                ) < 0 {
                    0
                } else {
                    partition@[last_holder(mapping, u as usize, c as int)]
                }),
        decreases mapping.len() - c,
    {
        let part: usize = partition[c];
        let group: &Vec<usize> = &vertex_mapping[c];
        let ghost before = fine@;
        let mut i: usize = 0;
        while i < group.len()
            invariant
                c < mapping.len() <= partition@.len(),
                mapping == groups(vertex_mapping@),
                names_fit(mapping),
                i <= group@.len(),
                group@ == mapping[c as int],
                part == partition@[c as int],
                before.len() == fine@.len() == vertices == named(mapping, mapping.len() as int),
                forall|u: int|
                    0 <= u < fine@.len() ==> #[trigger] fine@[u] == (if group@.take(
                        i as int,
                    ).contains(u as usize) {
                        part
                    } else {
                        before[u]
                    }),
            decreases group@.len() - i,
        {
            let target: usize = group[i];
            assert(mapping[c as int][i as int] == target);
            let ghost previous = fine@;
            fine.set(target, part);
            proof {
                let longer = group@.take(i + 1);
                assert(longer == group@.take(i as int).push(target));
                assert forall|u: int| 0 <= u < fine@.len() implies #[trigger] fine@[u] == (
                if longer.contains(u as usize) {
                    part
                } else {
                    before[u]
                }) by {
                    if u == target {
                        assert(longer[i as int] == u as usize);
                    } else {
                        assert(fine@[u] == previous[u]);
                        if longer.contains(u as usize) {
                            let j = choose|j: int| 0 <= j < longer.len() && longer[j] == u as usize;
                            assert(group@.take(i as int)[j] == u as usize);
                        } else if group@.take(i as int).contains(u as usize) {
                            let j = choose|j: int|
                                0 <= j < i && group@.take(i as int)[j] == u as usize;
                            assert(longer[j] == u as usize);
                        }
                    }
                }
            }
            i += 1;
        }
        assert(group@.take(group@.len() as int) == mapping[c as int]);
        c += 1;
    }
    fine
}

} // verus!
