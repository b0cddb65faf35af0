//! What is decided around an eigen decomposition. The decomposition itself is numeric: the caller
//! computes it and hands in the numbers to compare.

use vstd::prelude::*;

use crate::ordering::{
    all_numbers, law_numbers_are_sorted, ranks, sort_numbers, stable_order, Binary64, NEGLIGIBLE,
};

verus! {

/// Matrices with up to this many rows are decomposed in full.
pub const FULL_DECOMPOSITION_LIMIT: usize = 512;

/// Eigenvalues past this many are not looked at for a gap.
pub const EIGENGAP_LIMIT: usize = 50;

/// How eigenpairs are computed.
#[derive(Debug, PartialEq, Eq, Clone, Copy)]
pub enum EigenMethod {
    /// All of them at once.
    Full,
    /// One after the other.
    Iterative,
}

/// The lesser of two numbers.
pub open spec fn lesser(a: nat, b: nat) -> nat {
    if a <= b {
        a
    } else {
        b
    }
}

/// Whether this is how the bottom `k` eigenpairs of a matrix with `n` rows are computed.
pub open spec fn is_plan(n: nat, k: nat, plan: (EigenMethod, usize)) -> bool {
    &&& plan.0 == (if n <= 512 {
        EigenMethod::Full
    } else {
        EigenMethod::Iterative
    })
    &&& plan.1 == lesser(k, n)
}

/// How to compute the bottom `k` eigenpairs of a matrix with `n` rows, and how many there are.
pub fn bottom_eigenpairs(n: usize, k: usize) -> (plan: (EigenMethod, usize))
    ensures
        is_plan(n as nat, k as nat, plan),
{
    let actual_k: usize = if k <= n {
        k
    } else {
        n
    };
    if n <= FULL_DECOMPOSITION_LIMIT {
        (EigenMethod::Full, actual_k)
    } else {
        (EigenMethod::Iterative, actual_k)
    }
}

/// Whether these are the positions of the `k` lowest eigenvalues, in ascending order of the
/// eigenvalues.
pub open spec fn are_lowest(eigenvalues: Seq<Binary64>, k: nat, bottom: Seq<usize>) -> bool {
    exists|order: Seq<usize>| #[trigger]
        stable_order(ranks(eigenvalues), order) && bottom == order.take(k as int)
}

/// The positions of the `k` lowest eigenvalues, in ascending order of the eigenvalues.
pub fn small_eigen_decomp(eigenvalues: &Vec<Binary64>, k: usize) -> (bottom: Vec<usize>)
    requires
        k <= eigenvalues@.len(),
        eigenvalues@.len() <= 1 || all_numbers(eigenvalues@),
    ensures
        are_lowest(eigenvalues@, k as nat, bottom@),
{
    let mut order = sort_numbers(eigenvalues);
    let ghost whole = order@;
    order.truncate(k);
    assert(order@ =~= whole.take(k as int));
    order
}

/// The lowest eigenvalues come out in ascending order, and none that is left out is lower.
pub proof fn law_bottom_is_lowest(
    eigenvalues: Seq<Binary64>,
    order: Seq<usize>,
    k: int,
)
    requires
        stable_order(ranks(eigenvalues), order),
        0 <= k <= eigenvalues.len(),
        eigenvalues.len() <= usize::MAX,
    ensures
        forall|p: int, q: int|
            #![trigger order.take(k)[p], order.take(k)[q]]
            0 <= p <= q < k ==> eigenvalues[order.take(k)[p] as int].rank()
                <= eigenvalues[order.take(k)[q] as int].rank(),
        forall|p: int, x: usize|
            #![trigger order.take(k)[p], eigenvalues[x as int]]
            0 <= p < k && x < eigenvalues.len() && !order.take(k).contains(x)
                ==> eigenvalues[order.take(k)[p] as int].rank() <= eigenvalues[x as int].rank(),
{
    let bottom = order.take(k);
    assert forall|p: int, x: usize|
        #![trigger bottom[p], eigenvalues[x as int]]
        0 <= p < k && x < eigenvalues.len() && !bottom.contains(
            x,
        ) implies eigenvalues[bottom[p] as int].rank() <= eigenvalues[x as int].rank() by {
        assert(order.contains(x));
        let q = choose|q: int| 0 <= q < order.len() && order[q] == x;
        if q < k {
            assert(bottom[q] == x);
        }
    }
}

/// How many of `count` eigenvalues are looked at for a gap.
pub open spec fn considered(count: nat) -> nat {
    lesser(count, 50)
}

/// Whether the gap at `p` is the one that the number of clusters is taken from: it is positive, no
/// other is larger, and none in front of it is as large.
pub open spec fn is_largest_gap(gaps: Seq<Binary64>, p: int) -> bool {
    &&& 0 <= p < gaps.len()
    &&& (Binary64 { bits: 0 }).below(gaps[p])
    &&& forall|q: int| 0 <= q < gaps.len() ==> !gaps[p].below(#[trigger] gaps[q])
    &&& forall|q: int| 0 <= q < p ==> (#[trigger] gaps[q]).nan() || gaps[q].below(gaps[p])
}

/// Whether this is the number of clusters that the gaps between `count` eigenvalues suggest.
pub open spec fn is_cluster_count(count: nat, relative_gaps: Seq<Binary64>, k: usize) -> bool {
    &&& considered(count) <= 2 ==> k == 2
    &&& considered(count) > 2 ==> {
        let gaps = relative_gaps.take(considered(count) - 2);
        &&& forall|p: int| #[trigger] is_largest_gap(gaps, p) ==> k == p + 2
        &&& (forall|p: int| !#[trigger] is_largest_gap(gaps, p)) ==> k == 2
        &&& 2 <= k < considered(count)
    }
}

/// How many gaps [`eigengap_heuristic`] looks at, given the number of eigenvalues.
pub fn gap_count(count: usize) -> (gaps: usize)
    ensures
        gaps == (if considered(count as nat) <= 2 {
            0
        } else {
            considered(count as nat) - 2
        }),
{
    let n: usize = if count <= EIGENGAP_LIMIT {
        count
    } else {
        EIGENGAP_LIMIT
    };
    if n <= 2 {
        0
    } else {
        n - 2
    }
}

/// Uses the eigengap heuristic to determine the natural number of clusters.
///
/// Looks for the largest relative gap between consecutive eigenvalues. `relative_gaps[0]` is the
/// gap between the second and the third eigenvalue over the absolute value of the second, and so
/// on.
pub fn eigengap_heuristic(count: usize, relative_gaps: &Vec<Binary64>) -> (k: usize)
    requires
        relative_gaps@.len() + 2 >= considered(count as nat),
    ensures
        is_cluster_count(count as nat, relative_gaps@, k),
{
    let n: usize = if count <= EIGENGAP_LIMIT {
        count
    } else {
        EIGENGAP_LIMIT
    };
    if n <= 2 {
        return 2;
    }
    let ghost gaps = relative_gaps@.take(n - 2);
    let mut best_k: usize = 2;
    let mut best_gap = Binary64 { bits: 0 };
    let mut i: usize = 1;
    while i < n - 1
        invariant
            2 < n <= 50,
            1 <= i <= n - 1,
            relative_gaps@.len() + 2 >= n,
            gaps == relative_gaps@.take(n - 2),
            !best_gap.nan(),
            best_gap.rank() >= 0,
            forall|q: int| 0 <= q < i - 1 ==> !best_gap.below(#[trigger] gaps[q]),
            best_gap.rank() == 0 ==> best_gap.bits == 0 && best_k == 2,
            best_gap.rank() > 0 ==> {
                &&& 2 <= best_k < i + 1
                &&& gaps[best_k - 2] == best_gap
                &&& forall|q: int|
                    0 <= q < best_k - 2 ==> (#[trigger] gaps[q]).nan() || gaps[q].below(best_gap)
            },
        decreases n - i,
    {
        let gap = relative_gaps[i - 1];
        assert(gaps[i - 1] == gap);
        if best_gap.is_below(gap) {
            best_gap = gap;
            best_k = i + 1;
        }
        i = i + 1;
    }
    proof {
        if best_gap.rank() > 0 {
            assert(is_largest_gap(gaps, best_k - 2));
            assert forall|p: int| #[trigger] is_largest_gap(gaps, p) implies best_k == p + 2 by {
                let b = best_k - 2;
                assert(!gaps[p].below(gaps[b]));
                assert(!gaps[b].below(gaps[p]));
            }
        }
    }
    best_k
}

/// A power iteration under way.
pub struct PowerIteration {
    /// How many more products with the matrix may be taken.
    pub remaining: usize,
}

/// What comes of one product with the matrix.
#[derive(Debug, PartialEq, Eq, Clone, Copy)]
pub enum PowerStep {
    /// The product vanishes: stop, with the vector and the eigenvalue from before.
    Discard,
    /// Take over the new vector and eigenvalue, and stop.
    Accept,
    /// Take over the new vector and eigenvalue, and go on.
    Continue,
}

/// What comes of a product of length `norm` by which the eigenvalue changed by `change`, with this
/// many products left to take.
pub open spec fn power_step(
    norm: Binary64,
    change: Binary64,
    tol: Binary64,
    remaining: usize,
) -> PowerStep {
    if norm.below(Binary64 { bits: NEGLIGIBLE }) {
        PowerStep::Discard
    } else if change.below(tol) || remaining == 1 {
        PowerStep::Accept
    } else {
        PowerStep::Continue
    }
}

impl PowerIteration {
    /// A power iteration of at most `max_iter` products.
    pub fn new(max_iter: usize) -> (iteration: Self)
        ensures
            iteration.remaining == max_iter,
    {
        PowerIteration { remaining: max_iter }
    }

    /// Judges one product: `norm` is its length, `change` by how much the eigenvalue changed, and
    /// `tol` the change from which on the eigenvalue counts as found.
    pub fn step(&mut self, norm: Binary64, change: Binary64, tol: Binary64) -> (step: PowerStep)
        requires
            old(self).remaining > 0,
        ensures
            final(self).remaining == old(self).remaining - 1,
            step == power_step(norm, change, tol, old(self).remaining),
    {
        self.remaining = self.remaining - 1;
        if norm.is_below(Binary64 { bits: NEGLIGIBLE }) {
            PowerStep::Discard
        } else if change.is_below(tol) || self.remaining == 0 {
            PowerStep::Accept
        } else {
            PowerStep::Continue
        }
    }
}

/// The lesser of two numbers is above neither and is one of them; no more than fifty eigenvalues are
/// considered, and no more than there are.
pub proof fn law_lesser(a: nat, b: nat)
    ensures
        lesser(a, b) <= a,
        lesser(a, b) <= b,
        lesser(a, b) == a || lesser(a, b) == b,
        considered(a) <= a,
        considered(a) <= 50,
        considered(a) == a || considered(a) == 50,
{
}

/// A gap is the one that the number of clusters is taken from if and only if it is above zero, no
/// gap is above it, and every gap in front of it is below it or no number.
pub proof fn law_largest_gap(gaps: Seq<Binary64>, p: int)
    ensures
        is_largest_gap(gaps, p) == (0 <= p < gaps.len() && !gaps[p].nan() && gaps[p].rank() > 0 && (
        forall|q: int|
            0 <= q < gaps.len() ==> (#[trigger] gaps[q]).nan() || gaps[q].rank()
                <= gaps[p].rank()) && (forall|q: int|
            0 <= q < p ==> (#[trigger] gaps[q]).nan() || gaps[q].rank() < gaps[p].rank())),
{
}

/// Some gap is the one that the number of clusters is taken from, if any is above zero.
pub proof fn law_some_gap_is_largest(gaps: Seq<Binary64>, q: int) -> (p: int)
    requires
        0 <= q < gaps.len(),
        !gaps[q].nan(),
        gaps[q].rank() > 0,
    ensures
        is_largest_gap(gaps, p),
    decreases gaps.len(),
{
    let init = gaps.drop_last();
    let last = gaps.len() - 1;
    if exists|r: int| 0 <= r < init.len() && !(#[trigger] init[r]).nan() && init[r].rank() > 0 {
        let r = choose|r: int| 0 <= r < init.len() && !(#[trigger] init[r]).nan() && init[r].rank() > 0;
        let p = law_some_gap_is_largest(init, r);
        assert forall|s: int| 0 <= s < last implies gaps[s] == #[trigger] init[s] by {}
        if gaps[p].below(gaps[last]) {
            assert forall|s: int| 0 <= s < last implies (#[trigger] gaps[s]).nan() || gaps[s].below(
                gaps[last],
            ) by {
                assert(!init[p].below(init[s]));
            }
            assert(is_largest_gap(gaps, last));
            last
        } else {
            assert forall|s: int| 0 <= s < gaps.len() implies !gaps[p].below(#[trigger] gaps[s]) by {
                if s < last {
                    assert(!init[p].below(init[s]));
                }
            }
            assert forall|s: int| 0 <= s < p implies (#[trigger] gaps[s]).nan() || gaps[s].below(
                gaps[p],
            ) by {
                assert(init[s].nan() || init[s].below(init[p]));
            }
            assert(is_largest_gap(gaps, p));
            p
        }
    } else {
        assert forall|s: int| 0 <= s < last implies (#[trigger] gaps[s]).nan() || gaps[s].rank()
            <= 0 by {
            assert(gaps[s] == init[s]);
        }
        assert(q == last);
        assert(is_largest_gap(gaps, last));
        last
    }
}

/// The number of clusters is two where there are no three eigenvalues, or none of the gaps that are
/// looked at, between the second and the fiftieth eigenvalue, is above zero. Otherwise it is the
/// number of eigenvalues in front of the largest of those gaps, or of the first of several.
pub proof fn law_clusters_are_parted_by_the_largest_gap(
    count: nat,
    gaps: Seq<Binary64>,
    k: usize,
    q: int,
)
    requires
        is_cluster_count(count, gaps, k),
        gaps.len() + 2 >= count || gaps.len() >= 48,
    ensures
        count <= 2 ==> k == 2,
        count > 2 ==> 2 <= k && k < count && k < 50,
        0 <= q && q + 2 < count && q + 2 < 50 && !gaps[q].nan() && gaps[q].rank() > 0 ==> {
            &&& !gaps[k - 2].nan()
            &&& gaps[q].rank() <= gaps[k - 2].rank()
            &&& q < k - 2 ==> gaps[q].rank() < gaps[k - 2].rank()
        },
        (forall|p: int|
            0 <= p && p + 2 < count && p + 2 < 50 ==> (#[trigger] gaps[p]).nan() || gaps[p].rank()
                <= 0) ==> k == 2,
{
    if considered(count) > 2 {
        let looked = gaps.take(considered(count) - 2);
        assert forall|p: int| 0 <= p < looked.len() implies looked[p] == #[trigger] gaps[p] by {}
        if 0 <= q && q + 2 < count && q + 2 < 50 && !gaps[q].nan() && gaps[q].rank() > 0 {
            assert(looked[q] == gaps[q]);
            let p = law_some_gap_is_largest(looked, q);
            assert(k == p + 2);
            assert(!looked[p].below(looked[q]));
        }
        if forall|p: int|
            0 <= p && p + 2 < count && p + 2 < 50 ==> (#[trigger] gaps[p]).nan() || gaps[p].rank()
                <= 0 {
            assert forall|p: int| !#[trigger] is_largest_gap(looked, p) by {
                if is_largest_gap(looked, p) {
                    assert(looked[p] == gaps[p]);
                }
            }
        }
    }
}

/// As many positions are kept as asked for, none twice. Their eigenvalues do not descend, and no
/// eigenvalue that is left out is below one that is kept.
pub proof fn law_lowest_eigenvalues_are_kept(
    eigenvalues: Seq<Binary64>,
    k: nat,
    bottom: Seq<usize>,
)
    requires
        eigenvalues.len() <= usize::MAX,
        k <= eigenvalues.len(),
        are_lowest(eigenvalues, k, bottom),
    ensures
        bottom.len() == k,
        bottom.no_duplicates(),
        forall|p: int| 0 <= p < bottom.len() ==> (#[trigger] bottom[p]) < eigenvalues.len(),
        forall|p: int, q: int|
            #![trigger bottom[p], bottom[q]]
            0 <= p < q < bottom.len() ==> !eigenvalues[bottom[q] as int].below(
                eigenvalues[bottom[p] as int],
            ),
        forall|p: int, x: usize|
            #![trigger bottom[p], eigenvalues[x as int]]
            0 <= p < bottom.len() && x < eigenvalues.len() && !bottom.contains(x)
                ==> !eigenvalues[x as int].below(eigenvalues[bottom[p] as int]),
{
    let order = choose|order: Seq<usize>| #[trigger]
        stable_order(ranks(eigenvalues), order) && bottom == order.take(k as int);
    law_numbers_are_sorted(eigenvalues, order);
    law_bottom_is_lowest(eigenvalues, order, k as int);
    assert forall|p: int| 0 <= p < bottom.len() implies (#[trigger] bottom[p])
        < eigenvalues.len() by {
        assert(bottom[p] == order[p]);
    }
    assert forall|p: int, q: int|
        #![trigger bottom[p], bottom[q]]
        0 <= p < q < bottom.len() implies !eigenvalues[bottom[q] as int].below(
        eigenvalues[bottom[p] as int],
    ) by {
        assert(bottom[p] == order[p] && bottom[q] == order[q]);
    }
}

/// A product is discarded if and only if it is shorter than what counts as nothing. Otherwise its
/// eigenvalue is final if and only if it changed by less than the tolerance, or no product is left
/// to take.
pub proof fn law_power_iteration_ends(
    norm: Binary64,
    change: Binary64,
    tol: Binary64,
    remaining: usize,
)
    ensures
        power_step(norm, change, tol, remaining) is Discard == norm.below(
            Binary64 { bits: NEGLIGIBLE },
        ),
        power_step(norm, change, tol, 1) !is Continue,
        power_step(norm, change, tol, remaining) is Accept ==> change.below(tol) || remaining == 1,
        power_step(norm, change, tol, remaining) is Continue ==> !change.below(tol) && remaining
            != 1,
{
}

/// As many eigenpairs are computed as asked for, or as there are rows where there are fewer. A matrix
/// of up to 512 rows is decomposed in full, and any other iteratively.
pub proof fn law_plan(n: nat, k: nat, plan: (EigenMethod, usize))
    requires
        is_plan(n, k, plan),
    ensures
        plan.1 <= k && plan.1 <= n,
        plan.1 == k || plan.1 == n,
        n < 513 ==> plan.0 is Full,
        n > 512 ==> plan.0 is Iterative,
{
}

} // verus!
