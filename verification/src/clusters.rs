//! Sizes of clusters, and how many clusters and eigenvalues an analysis looks for.

use vstd::prelude::*;

use crate::eigen::lesser;
use crate::kmeans::members_of;
use crate::ordering::{as_ints, law_stable_order_sorts, sort_indices, stable_order};

verus! {

/// How many points are in cluster `c`.
pub open spec fn occurrences(assignments: Seq<usize>, c: usize) -> nat
    decreases assignments.len(),
{
    if assignments.len() == 0 {
        0
    } else {
        occurrences(assignments.drop_last(), c) + (if assignments.last() == c {
            1nat
        } else {
            0nat
        })
    }
}

/// The sizes of the first `k` clusters.
pub open spec fn sizes_of(assignments: Seq<usize>, k: nat) -> Seq<nat> {
    Seq::new(k, |c: int| occurrences(assignments, c as usize))
}

/// Numbers of a fixed width as natural numbers.
pub open spec fn as_nats(numbers: Seq<usize>) -> Seq<nat> {
    numbers.map_values(|number: usize| number as nat)
}

/// The sum of some numbers.
pub open spec fn total(numbers: Seq<nat>) -> nat
    decreases numbers.len(),
{
    if numbers.len() == 0 {
        0
    } else {
        total(numbers.drop_last()) + numbers.last()
    }
}

/// The negatives of some sizes: the lower, the larger the size.
pub open spec fn descending_keys(sizes: Seq<usize>) -> Seq<int> {
    sizes.map_values(|size: usize| -(size as int))
}

/// No more points are in a cluster than there are.
pub(crate) proof fn lemma_occurrences_bound(assignments: Seq<usize>, c: usize)
    ensures
        occurrences(assignments, c) <= assignments.len(),
    decreases assignments.len(),
{
    if assignments.len() > 0 {
        lemma_occurrences_bound(assignments.drop_last(), c);
    }
}

/// Computes cluster sizes from assignments. Points in none of the `k` clusters are passed over.
pub fn cluster_sizes(assignments: &[usize], k: usize) -> (sizes: Vec<usize>)
    ensures
        as_nats(sizes@) == sizes_of(assignments@, k as nat),
{
    let mut sizes: Vec<usize> = Vec::new();
    let mut c: usize = 0;
    while c < k
        invariant
            c <= k,
            sizes@.len() == c,
            forall|d: int| 0 <= d < c ==> #[trigger] sizes@[d] == 0,
        decreases k - c,
    {
        sizes.push(0);
        c = c + 1;
    }
    let mut i: usize = 0;
    assert(assignments@.take(0) =~= Seq::empty());
    while i < assignments.len()
        invariant
            i <= assignments@.len(),
            sizes@.len() == k,
            forall|d: int|
                0 <= d < k ==> #[trigger] sizes@[d] == occurrences(
                    assignments@.take(i as int),
                    d as usize,
                ),
        decreases assignments.len() - i,
    {
        let cluster: usize = assignments[i];
        proof {
            assert(assignments@.take(i + 1).drop_last() =~= assignments@.take(i as int));
            lemma_occurrences_bound(assignments@.take(i as int), cluster);
        }
        if cluster < k {
            sizes[cluster] = sizes[cluster] + 1;
        }
        i = i + 1;
    }
    assert(assignments@.take(i as int) =~= assignments@);
    assert(as_nats(sizes@) =~= sizes_of(assignments@, k as nat));
    sizes
}

/// The clusters, the largest first. Of two clusters of the same size the lower one comes first.
pub fn clusters_by_size(sizes: &Vec<usize>) -> (order: Vec<usize>)
    ensures
        stable_order(descending_keys(sizes@), order@),
{
    let mut keys: Vec<i128> = Vec::new();
    let mut i: usize = 0;
    while i < sizes.len()
        invariant
            i <= sizes@.len(),
            keys@.len() == i,
            forall|p: int| 0 <= p < i ==> #[trigger] keys@[p] == -(sizes@[p] as int),
        decreases sizes.len() - i,
    {
        keys.push(-(sizes[i] as i128));
        i = i + 1;
    }
    assert(as_ints(keys@) =~= descending_keys(sizes@));
    sort_indices(&keys)
}

/// Whether this is how many eigenpairs are asked for.
pub open spec fn is_eigen_count(clusters: nat, n: nat, count: nat) -> bool {
    &&& lesser(clusters + 2, n) >= 10 ==> count == lesser(clusters + 2, n)
    &&& lesser(clusters + 2, n) < 10 ==> count == 10
}

/// How many eigenpairs to ask for in an analysis of `n` vectors for `clusters` clusters, where 0
/// stands for as many as there turn out to be: two more than clusters, no more than vectors, but at
/// least ten.
pub fn eigen_count(clusters: usize, n: usize) -> (count: usize)
    requires
        clusters + 2 <= usize::MAX,
    ensures
        is_eigen_count(clusters as nat, n as nat, count as nat),
{
    let count: usize = if clusters + 2 <= n {
        clusters + 2
    } else {
        n
    };
    if count < 10 {
        10
    } else {
        count
    }
}

/// How many clusters to look for: as many as requested, or as many as were detected where 0 are
/// requested.
pub fn cluster_count(requested: usize, detected: usize) -> (k: usize)
    ensures
        requested > 0 ==> k == requested,
        requested == 0 ==> k == detected,
{
    if requested > 0 {
        requested
    } else {
        detected
    }
}

/// The size of a cluster is the number of its members.
pub proof fn law_size_counts_members(assignments: Seq<usize>, c: usize)
    ensures
        occurrences(assignments, c) == members_of(assignments, c).len(),
    decreases assignments.len(),
{
    if assignments.len() > 0 {
        law_size_counts_members(assignments.drop_last(), c);
    }
}

/// A sum grows by one with one of its terms.
pub(crate) proof fn lemma_total_update(before: Seq<nat>, after: Seq<nat>, p: int)
    requires
        before.len() == after.len(),
        0 <= p < before.len(),
        after == before.update(p, before[p] + 1),
    ensures
        total(after) == total(before) + 1,
    decreases before.len(),
{
    if p == before.len() - 1 {
        assert(after.drop_last() =~= before.drop_last());
    } else {
        assert(after.drop_last() =~= before.drop_last().update(p, before[p] + 1));
        lemma_total_update(before.drop_last(), after.drop_last(), p);
    }
}

/// Zeros add up to zero.
pub(crate) proof fn lemma_total_zeros(numbers: Seq<nat>)
    requires
        forall|i: int| 0 <= i < numbers.len() ==> #[trigger] numbers[i] == 0,
    ensures
        total(numbers) == 0,
    decreases numbers.len(),
{
    if numbers.len() > 0 {
        lemma_total_zeros(numbers.drop_last());
    }
}

/// How many points are in the first `k` clusters.
pub open spec fn points_below(assignments: Seq<usize>, k: nat) -> nat
    decreases assignments.len(),
{
    if assignments.len() == 0 {
        0
    } else {
        points_below(assignments.drop_last(), k) + (if assignments.last() < k {
            1nat
        } else {
            0nat
        })
    }
}

/// The sizes of the first `k` clusters add up to the number of points in them. That is the number
/// of all points if and only if every point is in one of them.
pub proof fn law_sizes_cover_points(assignments: Seq<usize>, k: nat)
    requires
        k <= usize::MAX,
    ensures
        total(sizes_of(assignments, k)) == points_below(assignments, k),
        points_below(assignments, k) <= assignments.len(),
        (points_below(assignments, k) == assignments.len()) == (forall|i: int|
            0 <= i < assignments.len() ==> (#[trigger] assignments[i]) < k),
    decreases assignments.len(),
{
    if assignments.len() == 0 {
        lemma_total_zeros(sizes_of(assignments, k));
    } else {
        let init = assignments.drop_last();
        law_sizes_cover_points(init, k);
        let c = assignments.last();
        assert(c == assignments[assignments.len() - 1]);
        let before = sizes_of(init, k);
        let after = sizes_of(assignments, k);
        if c < k {
            assert(after =~= before.update(c as int, before[c as int] + 1));
            lemma_total_update(before, after, c as int);
        } else {
            assert(after =~= before);
        }
        if points_below(init, k) == init.len() {
            assert forall|i: int| 0 <= i < assignments.len() && c < k implies (
            #[trigger] assignments[i]) < k by {
                if i < init.len() {
                    assert(init[i] == assignments[i]);
                }
            }
        }
        if forall|i: int| 0 <= i < assignments.len() ==> (#[trigger] assignments[i]) < k {
            assert forall|i: int| 0 <= i < init.len() implies (#[trigger] init[i]) < k by {
                assert(init[i] == assignments[i]);
            }
        }
    }
}

/// The total is what adding the numbers up one by one gives.
pub proof fn law_total_is_the_sum(numbers: Seq<nat>)
    ensures
        total(numbers) == numbers.fold_left(0int, |sum: int, x: nat| sum + x),
    decreases numbers.len(),
{
    reveal_with_fuel(Seq::fold_left, 2);
    if numbers.len() > 0 {
        law_total_is_the_sum(numbers.drop_last());
    }
}

/// A cluster is as large as the set of its points.
pub(crate) proof fn lemma_occurrence_set(assignments: Seq<usize>, c: usize)
    ensures
        Set::new(|i: int| 0 <= i < assignments.len() && assignments[i] == c).finite(),
        Set::new(|i: int| 0 <= i < assignments.len() && assignments[i] == c).len() == occurrences(
            assignments,
            c,
        ),
    decreases assignments.len(),
{
    let found = Set::new(|i: int| 0 <= i < assignments.len() && assignments[i] == c);
    if assignments.len() == 0 {
        assert(found =~= Set::empty());
    } else {
        let init = assignments.drop_last();
        let before = Set::new(|i: int| 0 <= i < init.len() && init[i] == c);
        lemma_occurrence_set(init, c);
        if assignments.last() == c {
            assert(found =~= before.insert(assignments.len() - 1));
        } else {
            assert(found =~= before);
        }
    }
}

/// There is one size for each of the `k` clusters, and it is the number of points in the cluster.
pub proof fn law_sizes_count_points(
    assignments: Seq<usize>,
    k: nat,
    sizes: Seq<usize>,
    c: usize,
)
    requires
        as_nats(sizes) == sizes_of(assignments, k),
    ensures
        sizes.len() == k,
        c < k ==> sizes[c as int] == Set::new(
            |i: int| 0 <= i < assignments.len() && assignments[i] == c,
        ).len(),
{
    assert(as_nats(sizes).len() == sizes.len());
    if c < k {
        assert(as_nats(sizes)[c as int] == sizes[c as int]);
        lemma_occurrence_set(assignments, c);
    }
}

/// Each cluster is listed once, a larger one before a smaller one, and of two of the same size the
/// lower one first.
pub proof fn law_larger_clusters_come_first(sizes: Seq<usize>, order: Seq<usize>)
    requires
        sizes.len() <= usize::MAX,
        stable_order(descending_keys(sizes), order),
    ensures
        order.len() == sizes.len(),
        forall|c: usize| c < sizes.len() ==> #[trigger] order.contains(c),
        forall|p: int| 0 <= p < order.len() ==> (#[trigger] order[p]) < sizes.len(),
        forall|p: int, q: int|
            #![trigger order[p], order[q]]
            0 <= p < q < order.len() ==> sizes[order[p] as int] > sizes[order[q] as int] || (
            sizes[order[p] as int] == sizes[order[q] as int] && order[p] < order[q]),
{
    law_stable_order_sorts(descending_keys(sizes), order);
}

/// At least ten eigenpairs are asked for. More than ten are no more than there are vectors and no
/// more than two beyond the clusters, and one of the two; ten are asked for only where one of the
/// two is ten or less.
pub proof fn law_eigenpairs_asked_for(clusters: nat, n: nat, count: nat)
    requires
        is_eigen_count(clusters, n, count),
    ensures
        count >= 10,
        count > 10 ==> count <= n && count <= clusters + 2 && (count == n || count == clusters + 2),
        count == 10 ==> n <= 10 || clusters + 2 <= 10,
{
}

} // verus!
