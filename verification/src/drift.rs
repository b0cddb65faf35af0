//! Drift between a snapshot of an index and its present state.

use vstd::prelude::*;

use crate::clusters::{as_nats, law_total_is_the_sum, total};
use crate::eigen::lesser;
use crate::ordering::Binary64;

verus! {

/// A spectral snapshot for drift comparison across index updates.
pub struct SpectralSnapshot {
    pub vector_count: usize,
    pub cluster_count: usize,
    pub eigenvalues: Vec<Binary64>,
    pub cheeger_constant: Binary64,
    pub cluster_sizes: Vec<usize>,
    pub quality_score: Option<Binary64>,
    pub drift_score: Option<Binary64>,
}

/// The total variation distance of two distributions over clusters.
#[derive(Debug, PartialEq, Eq, Clone, Copy)]
pub enum ClusterDrift {
    /// One of the two has clusters but no vectors, so it is no distribution.
    Undefined,
    /// The distance is this fraction.
    Distance { numerator: u128, denominator: u128 },
}

/// What the drift score is computed from.
#[derive(Debug, PartialEq, Eq, Clone, Copy)]
pub struct DriftTerms {
    /// How many of the lowest eigenvalues are compared.
    pub eigenvalue_count: usize,
    /// How far the distribution over clusters shifted.
    pub cluster_drift: ClusterDrift,
}

/// The size of cluster `i`, which is zero past the last one.
pub open spec fn size_at(sizes: Seq<usize>, i: int) -> int {
    if 0 <= i < sizes.len() {
        sizes[i] as int
    } else {
        0
    }
}

/// The share of cluster `i` in one distribution less that in the other, times both totals.
pub open spec fn share_difference(left: Seq<usize>, right: Seq<usize>, i: int) -> int {
    size_at(left, i) * total(as_nats(right)) - size_at(right, i) * total(as_nats(left))
}

/// The absolute value of a number.
pub open spec fn absolute(x: int) -> int {
    if x < 0 {
        -x
    } else {
        x
    }
}

/// The absolute differences of the shares of the first `m` clusters, summed up, times both totals.
pub open spec fn summed_differences(left: Seq<usize>, right: Seq<usize>, m: nat) -> int
    decreases m,
{
    if m == 0 {
        0
    } else {
        summed_differences(left, right, (m - 1) as nat) + absolute(
            share_difference(left, right, m - 1),
        )
    }
}

/// The greater of two numbers.
pub open spec fn greater(a: nat, b: nat) -> nat {
    if a >= b {
        a
    } else {
        b
    }
}

/// Whether there are clusters, but no vectors in them.
pub open spec fn is_void(sizes: Seq<usize>) -> bool {
    sizes.len() > 0 && total(as_nats(sizes)) == 0
}

/// Whether this is the total variation distance: half the sum of the absolute differences of the
/// shares. Where one side has no clusters at all, its shares are all zero.
pub open spec fn is_cluster_drift(
    left: Seq<usize>,
    right: Seq<usize>,
    drift: ClusterDrift,
) -> bool {
    if is_void(left) || is_void(right) {
        drift is Undefined
    } else {
        &&& drift matches ClusterDrift::Distance { numerator, denominator }
        &&& if left.len() == 0 && right.len() == 0 {
            numerator == 0 && denominator == 1
        } else if left.len() == 0 || right.len() == 0 {
            numerator == 1 && denominator == 2
        } else {
            &&& 2 * numerator == summed_differences(left, right, greater(left.len(), right.len()))
            &&& denominator == total(as_nats(left)) * total(as_nats(right))
            &&& denominator > 0
        }
    }
}

/// The positive ones among the differences of the first `m` shares, summed up.
spec fn summed_surpluses(left: Seq<usize>, right: Seq<usize>, m: nat) -> int
    decreases m,
{
    if m == 0 {
        0
    } else {
        let difference = share_difference(left, right, m - 1);
        summed_surpluses(left, right, (m - 1) as nat) + (if difference > 0 {
            difference
        } else {
            0
        })
    }
}

/// The sizes of the first `m` clusters, summed up.
spec fn summed_sizes(sizes: Seq<usize>, m: nat) -> int
    decreases m,
{
    if m == 0 {
        0
    } else {
        summed_sizes(sizes, (m - 1) as nat) + size_at(sizes, m - 1)
    }
}

proof fn lemma_summed_sizes(sizes: Seq<usize>, m: nat)
    ensures
        m <= sizes.len() ==> summed_sizes(sizes, m) == total(as_nats(sizes.take(m as int))),
        m >= sizes.len() ==> summed_sizes(sizes, m) == total(as_nats(sizes)),
        0 <= summed_sizes(sizes, m) <= total(as_nats(sizes)),
    decreases m,
{
    if m > 0 {
        lemma_summed_sizes(sizes, (m - 1) as nat);
        if m <= sizes.len() {
            let now = as_nats(sizes.take(m as int));
            assert(now.drop_last() =~= as_nats(sizes.take(m - 1)));
            assert(now.last() == sizes[m - 1]);
            assert(sizes.take(sizes.len() as int) =~= sizes);
            lemma_total_prefix(sizes, m as int);
        }
    } else {
        assert(as_nats(sizes.take(0)) =~= Seq::empty());
        assert(sizes.len() == 0 ==> as_nats(sizes) =~= Seq::empty());
    }
}

proof fn lemma_total_prefix(sizes: Seq<usize>, m: int)
    requires
        0 <= m <= sizes.len(),
    ensures
        total(as_nats(sizes.take(m))) <= total(as_nats(sizes)),
    decreases sizes.len() - m,
{
    if m == sizes.len() {
        assert(sizes.take(m) =~= sizes);
    } else {
        lemma_total_prefix(sizes, m + 1);
        assert(as_nats(sizes.take(m + 1)).drop_last() =~= as_nats(sizes.take(m)));
    }
}

/// The absolute differences are twice the surpluses, less the differences themselves.
proof fn lemma_differences(left: Seq<usize>, right: Seq<usize>, m: nat)
    ensures
        summed_differences(left, right, m) == 2 * summed_surpluses(left, right, m) - (summed_sizes(
            left,
            m,
        ) * total(as_nats(right)) - summed_sizes(right, m) * total(as_nats(left))),
        0 <= summed_surpluses(left, right, m) <= summed_sizes(left, m) * total(as_nats(right)),
    decreases m,
{
    let a = total(as_nats(right)) as int;
    let b = total(as_nats(left)) as int;
    if m > 0 {
        lemma_differences(left, right, (m - 1) as nat);
        let x = summed_sizes(left, (m - 1) as nat);
        let y = summed_sizes(right, (m - 1) as nat);
        let u = size_at(left, m - 1);
        let v = size_at(right, m - 1);
        assert((x + u) * a == x * a + u * a) by (nonlinear_arith);
        assert((y + v) * b == y * b + v * b) by (nonlinear_arith);
        assert(u * a >= 0) by (nonlinear_arith)
            requires
                u >= 0,
                a >= 0,
        ;
        assert(v * b >= 0) by (nonlinear_arith)
            requires
                v >= 0,
                b >= 0,
        ;
    } else {
        assert(0 * a == 0 && 0 * b == 0) by (nonlinear_arith);
    }
}

/// The number of vectors in some clusters.
fn sum_sizes(sizes: &[usize]) -> (sum: usize)
    requires
        total(as_nats(sizes@)) <= usize::MAX,
    ensures
        sum == total(as_nats(sizes@)),
{
    let mut sum: usize = 0;
    let mut i: usize = 0;
    while i < sizes.len()
        invariant
            i <= sizes@.len(),
            total(as_nats(sizes@)) <= usize::MAX,
            sum == summed_sizes(sizes@, i as nat),
        decreases sizes.len() - i,
    {
        proof {
            lemma_summed_sizes(sizes@, (i + 1) as nat);
        }
        sum = sum + sizes[i];
        i = i + 1;
    }
    proof {
        lemma_summed_sizes(sizes@, sizes@.len());
    }
    sum
}

/// The size of cluster `i`.
fn get_size(sizes: &[usize], i: usize) -> (size: usize)
    ensures
        size == size_at(sizes@, i as int),
{
    if i < sizes.len() {
        sizes[i]
    } else {
        0
    }
}

/// The total variation distance between the distributions of vectors over clusters.
pub fn total_variation_distance(left: &[usize], right: &[usize]) -> (drift: ClusterDrift)
    requires
        total(as_nats(left@)) <= usize::MAX,
        total(as_nats(right@)) <= usize::MAX,
    ensures
        is_cluster_drift(left@, right@, drift),
{
    let n_left: usize = sum_sizes(left);
    let n_right: usize = sum_sizes(right);
    if (left.len() > 0 && n_left == 0) || (right.len() > 0 && n_right == 0) {
        return ClusterDrift::Undefined;
    }
    if left.len() == 0 && right.len() == 0 {
        return ClusterDrift::Distance { numerator: 0, denominator: 1 };
    }
    if left.len() == 0 || right.len() == 0 {
        return ClusterDrift::Distance { numerator: 1, denominator: 2 };
    }
    let max_clusters: usize = if left.len() >= right.len() {
        left.len()
    } else {
        right.len()
    };
    let ghost whole = n_left * n_right;
    assert(whole <= u128::MAX) by (nonlinear_arith)
        requires
            whole == n_left * n_right,
            0 <= n_left <= 0xffff_ffff_ffff_ffff,
            0 <= n_right <= 0xffff_ffff_ffff_ffff,
    ;
    let mut surplus: u128 = 0;
    let mut i: usize = 0;
    while i < max_clusters
        invariant
            i <= max_clusters,
            n_left == total(as_nats(left@)),
            n_right == total(as_nats(right@)),
            whole == n_left * n_right,
            whole <= u128::MAX,
            surplus == summed_surpluses(left@, right@, i as nat),
        decreases max_clusters - i,
    {
        let p: usize = get_size(left, i);
        let q: usize = get_size(right, i);
        proof {
            lemma_differences(left@, right@, (i + 1) as nat);
            lemma_summed_sizes(left@, (i + 1) as nat);
            let x = summed_sizes(left@, (i + 1) as nat);
            assert(x * n_right <= n_left * n_right) by (nonlinear_arith)
                requires
                    0 <= x <= n_left,
                    n_right >= 0,
            ;
            assert(p as u128 * n_right as u128 <= u128::MAX) by (nonlinear_arith)
                requires
                    p as u128 <= 0xffff_ffff_ffff_ffff,
                    n_right as u128 <= 0xffff_ffff_ffff_ffff,
            ;
            assert(q as u128 * n_left as u128 <= u128::MAX) by (nonlinear_arith)
                requires
                    q as u128 <= 0xffff_ffff_ffff_ffff,
                    n_left as u128 <= 0xffff_ffff_ffff_ffff,
            ;
        }
        let scaled_p: u128 = (p as u128) * (n_right as u128);
        let scaled_q: u128 = (q as u128) * (n_left as u128);
        if scaled_p > scaled_q {
            surplus = surplus + (scaled_p - scaled_q);
        }
        i = i + 1;
    }
    proof {
        let m = max_clusters as nat;
        lemma_differences(left@, right@, m);
        lemma_summed_sizes(left@, m);
        lemma_summed_sizes(right@, m);
        assert(n_left * n_right - n_right * n_left == 0) by (nonlinear_arith);
        assert(n_left * n_right > 0) by (nonlinear_arith)
            requires
                n_left > 0,
                n_right > 0,
        ;
    }
    ClusterDrift::Distance {
        numerator: surplus,
        denominator: (n_left as u128) * (n_right as u128),
    }
}

/// Whether these are the terms of the drift from one state to another, each given by its
/// eigenvalues and cluster sizes: as many eigenvalues are compared as both have.
pub open spec fn are_drift_terms(
    left_eigenvalues: Seq<Binary64>,
    left_sizes: Seq<usize>,
    right_eigenvalues: Seq<Binary64>,
    right_sizes: Seq<usize>,
    terms: DriftTerms,
) -> bool {
    &&& terms.eigenvalue_count == lesser(left_eigenvalues.len(), right_eigenvalues.len())
    &&& is_cluster_drift(left_sizes, right_sizes, terms.cluster_drift)
}

/// Whether these are the eigenvalues that a snapshot of this many clusters keeps.
pub open spec fn are_kept(
    eigenvalues: Seq<Binary64>,
    clusters: nat,
    kept: Seq<Binary64>,
) -> bool {
    kept == eigenvalues.take(lesser(eigenvalues.len(), clusters + 2) as int)
}

/// Takes a snapshot. Of the eigenvalues, which are in ascending order, it keeps two more than there
/// are clusters, or all if there are fewer.
pub fn take_snapshot(
    vector_count: usize,
    cluster_count: usize,
    eigenvalues: Vec<Binary64>,
    cheeger_constant: Binary64,
    cluster_sizes: Vec<usize>,
    quality_score: Option<Binary64>,
    drift_score: Option<Binary64>,
) -> (snapshot: SpectralSnapshot)
    requires
        cluster_count + 2 <= usize::MAX,
    ensures
        snapshot.vector_count == vector_count,
        snapshot.cluster_count == cluster_count,
        are_kept(eigenvalues@, cluster_count as nat, snapshot.eigenvalues@),
        snapshot.cheeger_constant == cheeger_constant,
        snapshot.cluster_sizes == cluster_sizes,
        snapshot.quality_score == quality_score,
        snapshot.drift_score == drift_score,
{
    let mut kept = eigenvalues;
    kept.truncate(cluster_count + 2);
    assert(kept@ =~= eigenvalues@.take(
        lesser(eigenvalues@.len(), (cluster_count + 2) as nat) as int,
    ));
    SpectralSnapshot {
        vector_count,
        cluster_count,
        eigenvalues: kept,
        cheeger_constant,
        cluster_sizes,
        quality_score,
        drift_score,
    }
}

/// Computes what the drift score between a baseline snapshot and the current state combines: how
/// many eigenvalues both have, to be compared by cosine distance, and the shift of the distribution
/// over clusters.
pub fn compute_drift(
    baseline: &SpectralSnapshot,
    current_eigenvalues: &[Binary64],
    current_cluster_sizes: &[usize],
) -> (terms: DriftTerms)
    requires
        total(as_nats(baseline.cluster_sizes@)) <= usize::MAX,
        total(as_nats(current_cluster_sizes@)) <= usize::MAX,
    ensures
        are_drift_terms(
            baseline.eigenvalues@,
            baseline.cluster_sizes@,
            current_eigenvalues@,
            current_cluster_sizes@,
            terms,
        ),
{
    let eigenvalue_count: usize = if baseline.eigenvalues.len() <= current_eigenvalues.len() {
        baseline.eigenvalues.len()
    } else {
        current_eigenvalues.len()
    };
    DriftTerms {
        eigenvalue_count,
        cluster_drift: total_variation_distance(
            baseline.cluster_sizes.as_slice(),
            current_cluster_sizes,
        ),
    }
}

/// The distance is at most one.
pub proof fn law_drift_at_most_one(left: Seq<usize>, right: Seq<usize>, drift: ClusterDrift)
    requires
        is_cluster_drift(left, right, drift),
    ensures
        drift matches ClusterDrift::Distance { numerator, denominator } ==> denominator > 0
            && numerator <= denominator,
{
    let m = greater(left.len(), right.len());
    lemma_differences(left, right, m);
    lemma_summed_sizes(left, m);
    lemma_summed_sizes(right, m);
    let a = total(as_nats(left)) as int;
    let b = total(as_nats(right)) as int;
    assert(a * b - b * a == 0) by (nonlinear_arith);
}

/// The distance does not depend on which of the two comes first.
pub proof fn law_drift_symmetric(
    left: Seq<usize>,
    right: Seq<usize>,
    drift: ClusterDrift,
    reverse: ClusterDrift,
)
    requires
        is_cluster_drift(left, right, drift),
        is_cluster_drift(right, left, reverse),
    ensures
        drift == reverse,
{
    let m = greater(left.len(), right.len());
    lemma_differences_symmetric(left, right, m);
    let a = total(as_nats(left));
    let b = total(as_nats(right));
    assert(a * b == b * a) by (nonlinear_arith);
}

/// The drift from one state to another has the same terms as the drift back.
pub proof fn law_drift_terms_symmetric(
    left_eigenvalues: Seq<Binary64>,
    left_sizes: Seq<usize>,
    right_eigenvalues: Seq<Binary64>,
    right_sizes: Seq<usize>,
    terms: DriftTerms,
    reverse: DriftTerms,
)
    requires
        are_drift_terms(left_eigenvalues, left_sizes, right_eigenvalues, right_sizes, terms),
        are_drift_terms(right_eigenvalues, right_sizes, left_eigenvalues, left_sizes, reverse),
    ensures
        terms == reverse,
{
    law_drift_symmetric(left_sizes, right_sizes, terms.cluster_drift, reverse.cluster_drift);
}

proof fn lemma_differences_symmetric(left: Seq<usize>, right: Seq<usize>, m: nat)
    ensures
        summed_differences(left, right, m) == summed_differences(right, left, m),
    decreases m,
{
    if m > 0 {
        lemma_differences_symmetric(left, right, (m - 1) as nat);
    }
}

proof fn lemma_no_differences(left: Seq<usize>, right: Seq<usize>, m: nat)
    requires
        forall|i: int| 0 <= i < m ==> #[trigger] share_difference(left, right, i) == 0,
    ensures
        summed_differences(left, right, m) == 0,
    decreases m,
{
    if m > 0 {
        lemma_no_differences(left, right, (m - 1) as nat);
    }
}

proof fn lemma_some_difference(left: Seq<usize>, right: Seq<usize>, m: nat, i: int)
    requires
        0 <= i < m,
    ensures
        absolute(share_difference(left, right, i)) <= summed_differences(left, right, m),
    decreases m,
{
    if i < m - 1 {
        lemma_some_difference(left, right, (m - 1) as nat, i);
    } else {
        lemma_differences_nonnegative(left, right, (m - 1) as nat);
    }
}

proof fn lemma_differences_nonnegative(left: Seq<usize>, right: Seq<usize>, m: nat)
    ensures
        summed_differences(left, right, m) >= 0,
    decreases m,
{
    if m > 0 {
        lemma_differences_nonnegative(left, right, (m - 1) as nat);
    }
}

/// Every cluster has the same share on both sides.
pub open spec fn same_shares(left: Seq<usize>, right: Seq<usize>) -> bool {
    forall|i: int|
        0 <= i < greater(left.len(), right.len()) ==> #[trigger] share_difference(left, right, i)
            == 0
}

/// The distance is zero if and only if every cluster has the same share on both sides.
pub proof fn law_zero_means_same_distribution(
    left: Seq<usize>,
    right: Seq<usize>,
    drift: ClusterDrift,
)
    requires
        is_cluster_drift(left, right, drift),
        !is_void(left),
        !is_void(right),
        left.len() > 0,
        right.len() > 0,
    ensures
        drift matches ClusterDrift::Distance { numerator, denominator } && (numerator == 0)
            == same_shares(left, right),
{
    let m = greater(left.len(), right.len());
    if same_shares(left, right) {
        lemma_no_differences(left, right, m);
    }
    if summed_differences(left, right, m) == 0 {
        assert forall|i: int| 0 <= i < m implies #[trigger] share_difference(left, right, i)
            == 0 by {
            lemma_some_difference(left, right, m, i);
        }
    }
}

/// The bit pattern of `0.15`: a drift above it is significant.
pub const SIGNIFICANT_DRIFT: u64 = 0x3fc3_3333_3333_3333;

/// Tells whether a drift score is above a threshold.
pub fn drift_exceeds(drift: Binary64, threshold: Binary64) -> (answer: bool)
    ensures
        answer == threshold.below(drift),
{
    threshold.is_below(drift)
}

/// No eigenvalue that both sides have is left out of the comparison: no more are compared than
/// either side has, and each position that both have is among those compared. So of two lists of the
/// same length all are.
pub proof fn law_all_shared_eigenvalues_are_compared(
    left_eigenvalues: Seq<Binary64>,
    left_sizes: Seq<usize>,
    right_eigenvalues: Seq<Binary64>,
    right_sizes: Seq<usize>,
    terms: DriftTerms,
)
    requires
        are_drift_terms(left_eigenvalues, left_sizes, right_eigenvalues, right_sizes, terms),
    ensures
        terms.eigenvalue_count <= left_eigenvalues.len(),
        terms.eigenvalue_count <= right_eigenvalues.len(),
        forall|i: int|
            #![trigger left_eigenvalues[i], right_eigenvalues[i]]
            0 <= i < left_eigenvalues.len() && i < right_eigenvalues.len() ==> i
                < terms.eigenvalue_count,
        left_eigenvalues.len() == right_eigenvalues.len() ==> terms.eigenvalue_count
            == left_eigenvalues.len(),
{
    if terms.eigenvalue_count < left_eigenvalues.len() && terms.eigenvalue_count
        < right_eigenvalues.len() {
        let _ = left_eigenvalues[terms.eigenvalue_count as int];
    }
}

/// The differences in share of the clusters in a set, times both totals, summed up.
pub open spec fn difference_in(
    left: Seq<usize>,
    right: Seq<usize>,
    chosen: spec_fn(int) -> bool,
    m: nat,
) -> int
    decreases m,
{
    if m == 0 {
        0
    } else {
        difference_in(left, right, chosen, (m - 1) as nat) + (if chosen(m - 1) {
            (if m - 1 < left.len() {
                left[m - 1] * as_nats(right).fold_left(0int, |sum: int, x: nat| sum + x)
            } else {
                0
            }) - (if m - 1 < right.len() {
                right[m - 1] * as_nats(left).fold_left(0int, |sum: int, x: nat| sum + x)
            } else {
                0
            })
        } else {
            0
        })
    }
}

proof fn lemma_difference_in(
    left: Seq<usize>,
    right: Seq<usize>,
    chosen: spec_fn(int) -> bool,
    m: nat,
)
    ensures
        difference_in(left, right, chosen, m) <= summed_surpluses(left, right, m),
        difference_in(left, right, |i: int| share_difference(left, right, i) > 0, m)
            == summed_surpluses(left, right, m),
    decreases m,
{
    if m > 0 {
        lemma_difference_in(left, right, chosen, (m - 1) as nat);
        law_total_is_the_sum(as_nats(left));
        law_total_is_the_sum(as_nats(right));
        let a = total(as_nats(left)) as int;
        let b = total(as_nats(right)) as int;
        assert(0 * a == 0 && 0 * b == 0) by (nonlinear_arith);
    }
}

/// The distance is the greatest difference in share that any set of clusters has: the shares of no
/// set of clusters differ by more, and those of some set differ by as much.
pub proof fn law_drift_is_the_greatest_difference(
    left: Seq<usize>,
    right: Seq<usize>,
    drift: ClusterDrift,
    chosen: spec_fn(int) -> bool,
) -> (greatest: spec_fn(int) -> bool)
    requires
        is_cluster_drift(left, right, drift),
        exists|i: int| 0 <= i < left.len() && #[trigger] left[i] > 0,
        exists|i: int| 0 <= i < right.len() && #[trigger] right[i] > 0,
    ensures
        drift matches ClusterDrift::Distance { numerator, denominator } && {
            &&& denominator == as_nats(left).fold_left(0int, |sum: int, x: nat| sum + x) * as_nats(
                right,
            ).fold_left(0int, |sum: int, x: nat| sum + x)
            &&& denominator > 0
            &&& forall|m: nat|
                left.len() <= m && right.len() <= m ==> #[trigger] difference_in(
                    left,
                    right,
                    chosen,
                    m,
                ) <= numerator
            &&& exists|m: nat|
                left.len() <= m && right.len() <= m && #[trigger] difference_in(
                    left,
                    right,
                    greatest,
                    m,
                ) == numerator
        },
{
    let i = choose|i: int| 0 <= i < left.len() && #[trigger] left[i] > 0;
    let j = choose|j: int| 0 <= j < right.len() && #[trigger] right[j] > 0;
    lemma_positive_total(left, i);
    lemma_positive_total(right, j);
    law_total_is_the_sum(as_nats(left));
    law_total_is_the_sum(as_nats(right));
    let greatest = |i: int| share_difference(left, right, i) > 0;
    let w = greater(left.len(), right.len());
    lemma_differences(left, right, w);
    lemma_summed_sizes(left, w);
    lemma_summed_sizes(right, w);
    let a = total(as_nats(left)) as int;
    let b = total(as_nats(right)) as int;
    assert(a * b - b * a == 0) by (nonlinear_arith);
    lemma_difference_in(left, right, chosen, w);
    assert forall|m: nat|
        left.len() <= m && right.len() <= m implies #[trigger] difference_in(
        left,
        right,
        chosen,
        m,
    ) <= drift->numerator by {
        lemma_difference_in_past(left, right, chosen, w, m);
    }
    assert(difference_in(left, right, greatest, w) == drift->numerator);
    greatest
}

proof fn lemma_difference_in_past(
    left: Seq<usize>,
    right: Seq<usize>,
    chosen: spec_fn(int) -> bool,
    w: nat,
    m: nat,
)
    requires
        left.len() <= w,
        right.len() <= w,
        w <= m,
    ensures
        difference_in(left, right, chosen, m) == difference_in(left, right, chosen, w),
    decreases m,
{
    if w < m {
        lemma_difference_in_past(left, right, chosen, w, (m - 1) as nat);
    }
}

proof fn lemma_positive_total(sizes: Seq<usize>, i: int)
    requires
        0 <= i < sizes.len(),
        sizes[i] > 0,
    ensures
        total(as_nats(sizes)) > 0,
    decreases sizes.len(),
{
    assert(as_nats(sizes).drop_last() =~= as_nats(sizes.drop_last()));
    if i < sizes.len() - 1 {
        lemma_positive_total(sizes.drop_last(), i);
    }
}

proof fn lemma_zero_total(sizes: Seq<usize>)
    requires
        forall|i: int| 0 <= i < sizes.len() ==> #[trigger] sizes[i] == 0,
    ensures
        total(as_nats(sizes)) == 0,
    decreases sizes.len(),
{
    if sizes.len() > 0 {
        assert(as_nats(sizes).drop_last() =~= as_nats(sizes.drop_last()));
        assert forall|i: int| 0 <= i < sizes.len() - 1 implies #[trigger] sizes.drop_last()[i]
            == 0 by {
            assert(sizes.drop_last()[i] == sizes[i]);
        }
        lemma_zero_total(sizes.drop_last());
        assert(sizes[sizes.len() - 1] == 0);
    }
}

/// The distance is undefined if and only if one side has clusters that are all empty. Between no
/// clusters and none it is zero, and between none and some it is a half.
pub proof fn law_drift_at_the_edges(left: Seq<usize>, right: Seq<usize>, drift: ClusterDrift)
    requires
        is_cluster_drift(left, right, drift),
    ensures
        drift is Undefined == ((left.len() > 0 && forall|i: int|
            0 <= i < left.len() ==> #[trigger] left[i] == 0) || (right.len() > 0 && forall|i: int|
            0 <= i < right.len() ==> #[trigger] right[i] == 0)),
        drift matches ClusterDrift::Distance { numerator, denominator } ==> {
            &&& left.len() == 0 && right.len() == 0 ==> numerator == 0 && denominator == 1
            &&& (left.len() == 0) != (right.len() == 0) ==> 2 * numerator == denominator
                && denominator > 0
        },
{
    if forall|i: int| 0 <= i < left.len() ==> #[trigger] left[i] == 0 {
        lemma_zero_total(left);
    } else {
        let i = choose|i: int| 0 <= i < left.len() && #[trigger] left[i] != 0;
        lemma_positive_total(left, i);
    }
    if forall|i: int| 0 <= i < right.len() ==> #[trigger] right[i] == 0 {
        lemma_zero_total(right);
    } else {
        let i = choose|i: int| 0 <= i < right.len() && #[trigger] right[i] != 0;
        lemma_positive_total(right, i);
    }
}

/// A snapshot keeps the first eigenvalues: as many as there are clusters and two more, or all where
/// there are fewer.
pub proof fn law_first_eigenvalues_are_kept(
    eigenvalues: Seq<Binary64>,
    clusters: nat,
    kept: Seq<Binary64>,
)
    requires
        are_kept(eigenvalues, clusters, kept),
    ensures
        kept.len() <= eigenvalues.len(),
        kept.len() <= clusters + 2,
        kept.len() == eigenvalues.len() || kept.len() == clusters + 2,
        forall|i: int| 0 <= i < kept.len() ==> #[trigger] kept[i] == eigenvalues[i],
{
}

} // verus!
