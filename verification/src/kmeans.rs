//! k-means clustering: which point belongs to which centroid, and when to stop. The distances are
//! numeric: the caller computes them and hands them in to be compared.

use vstd::prelude::*;

use crate::eigen::lesser;
use crate::ordering::{Binary64, INFINITE_MAGNITUDE, NEGLIGIBLE};
use crate::random::random_below;
use crate::text::nested;

verus! {

/// At most this many rounds are run.
pub const MAX_ROUNDS: usize = 50;

/// Which columns of the eigenvectors span the space that is clustered.
#[derive(Debug, PartialEq, Eq, Clone, Copy)]
pub struct ColumnWindow {
    /// How many clusters are looked for.
    pub clusters: usize,
    /// The first column.
    pub start: usize,
    /// The number of columns.
    pub count: usize,
}

/// The columns to cluster `n` rows of `columns` eigenvectors by, in search of `k` clusters. The
/// first column, which is constant, is passed over where there is one to spare.
pub open spec fn is_column_window(window: ColumnWindow, n: nat, columns: nat, k: nat) -> bool {
    &&& window.clusters == lesser(k, n)
    &&& window.start == (if window.clusters < columns {
        1int
    } else {
        0int
    })
    &&& window.count == lesser(window.clusters as nat, (columns - window.start) as nat)
}

/// Which columns to cluster rows by.
fn column_window(n: usize, columns: usize, k: usize) -> (window: ColumnWindow)
    ensures
        is_column_window(window, n as nat, columns as nat, k as nat),
{
    let clusters: usize = if k <= n {
        k
    } else {
        n
    };
    let start: usize = if clusters < columns {
        1
    } else {
        0
    };
    let count: usize = if clusters <= columns - start {
        clusters
    } else {
        columns - start
    };
    ColumnWindow { clusters, start, count }
}

impl ColumnWindow {
    /// The entries of a row of the eigenvectors that the row is clustered by.
    pub fn select(&self, row: &Vec<Binary64>) -> (entries: Vec<Binary64>)
        requires
            self.start + self.count <= row@.len(),
        ensures
            entries@ == selected(*self, row@),
    {
        let columns: usize = row.len();
        let mut entries: Vec<Binary64> = Vec::new();
        let mut i: usize = 0;
        while i < self.count
            invariant
                i <= self.count,
                self.start + self.count <= columns,
                columns == row@.len(),
                entries@ == row@.subrange(self.start as int, self.start + i),
            decreases self.count - i,
        {
            entries.push(row[self.start + i]);
            i = i + 1;
            assert(entries@ =~= row@.subrange(self.start as int, self.start + i));
        }
        entries
    }
}

/// The entries of a row that are in the columns of a window.
pub open spec fn selected(window: ColumnWindow, row: Seq<Binary64>) -> Seq<Binary64> {
    row.subrange(window.start as int, window.start + window.count)
}

/// Where there is a column to spare, rows are clustered by the columns behind the first, as many as
/// there are clusters at most. What the first column and those further on hold makes no difference.
pub proof fn law_other_columns_are_ignored(
    window: ColumnWindow,
    n: nat,
    columns: nat,
    k: nat,
    left: Seq<Binary64>,
    right: Seq<Binary64>,
)
    requires
        is_column_window(window, n, columns, k),
        lesser(k, n) < columns,
        left.len() == columns,
        right.len() == columns,
        forall|c: int|
            1 <= c <= lesser(lesser(k, n), (columns - 1) as nat) ==> #[trigger] left[c] == right[c],
    ensures
        selected(window, left) == selected(window, right),
{
    assert(selected(window, left) =~= selected(window, right));
}

/// Begins spectral clustering: which columns of the eigenvectors to cluster the rows by, and a
/// clustering of the rows that is still to be run.
pub fn spectral_clustering(rows: usize, columns: usize, k: usize) -> (begun: (ColumnWindow, KMeans))
    ensures
        is_column_window(begun.0, rows as nat, columns as nat, k as nat),
        begun.0.start + begun.0.count <= columns,
        begun.1.wf(),
        begun.1.clusters == begun.0.clusters,
        begun.1.assignments@ == Seq::new(rows as nat, |i: int| 0usize),
        begun.1.rounds == 50,
{
    let window = column_window(rows, columns, k);
    (window, KMeans::new(rows, window.clusters))
}

/// The least distance that no finite one reaches.
pub open spec fn infinity() -> Binary64 {
    Binary64 { bits: INFINITE_MAGNITUDE }
}

/// Whether the centroid at `c` is the nearest one: it is at a finite distance, none is nearer, and
/// none in front of it is as near.
pub open spec fn is_nearest(distances: Seq<Binary64>, c: int) -> bool {
    &&& 0 <= c < distances.len()
    &&& distances[c].below(infinity())
    &&& forall|d: int| 0 <= d < distances.len() ==> !(#[trigger] distances[d]).below(distances[c])
    &&& forall|d: int|
        0 <= d < c ==> (#[trigger] distances[d]).nan() || distances[c].below(distances[d])
}

/// Whether this is the centroid that a point goes to: the nearest one, or the first where all are
/// infinitely far.
pub open spec fn is_assigned(distances: Seq<Binary64>, best: usize) -> bool {
    &&& forall|c: int| #[trigger] is_nearest(distances, c) ==> best == c
    &&& (forall|c: int| !#[trigger] is_nearest(distances, c)) ==> best == 0
}

/// The nearest centroid, given the distances to all of them. A point at a finite distance from none
/// belongs to the first.
pub fn nearest_centroid(distances: &Vec<Binary64>) -> (best: usize)
    ensures
        is_assigned(distances@, best),
        distances@.len() > 0 ==> best < distances@.len(),
        distances@.len() == 0 ==> best == 0,
{
    let mut best: usize = 0;
    let mut best_dist = Binary64 { bits: INFINITE_MAGNITUDE };
    let mut c: usize = 0;
    while c < distances.len()
        invariant
            c <= distances@.len(),
            !best_dist.nan(),
            best_dist.rank() <= infinity().rank(),
            forall|d: int| 0 <= d < c ==> !(#[trigger] distances@[d]).below(best_dist),
            best_dist.rank() == infinity().rank() ==> best == 0,
            best_dist.rank() < infinity().rank() ==> {
                &&& best < c
                &&& distances@[best as int] == best_dist
                &&& forall|d: int|
                    0 <= d < best ==> (#[trigger] distances@[d]).nan() || best_dist.below(
                        distances@[d],
                    )
            },
        decreases distances.len() - c,
    {
        if distances[c].is_below(best_dist) {
            best_dist = distances[c];
            best = c;
        }
        c = c + 1;
    }
    proof {
        if best_dist.rank() < infinity().rank() {
            assert(is_nearest(distances@, best as int));
        }
        assert forall|c: int| #[trigger] is_nearest(distances@, c) implies best == c by {
            assert(!distances@[c].below(best_dist));
            if best_dist.rank() < infinity().rank() {
                assert(!distances@[best as int].below(distances@[c]));
                if best < c {
                    assert(distances@[best as int].nan() || distances@[c].below(
                        distances@[best as int],
                    ));
                }
                if c < best {
                    assert(distances@[c].nan() || best_dist.below(distances@[c]));
                }
            }
        }
    }
    best
}

/// A clustering under way.
pub struct KMeans {
    /// The number of clusters.
    pub clusters: usize,
    /// The cluster of each point.
    pub assignments: Vec<usize>,
    /// How many more rounds may be run.
    pub rounds: usize,
}

/// What comes of one round.
pub enum KMeansStep {
    /// The clusters did not change: they are final.
    Converged,
    /// The centroid of each cluster that has members moves to their mean.
    Recenter {
        /// The members of each cluster, in ascending order.
        members: Vec<Vec<usize>>,
    },
}

/// Whether each point is in one of the clusters. Without clusters, every point counts as in the
/// first.
pub open spec fn in_clusters(assignments: Seq<usize>, clusters: nat) -> bool {
    forall|i: int|
        0 <= i < assignments.len() ==> (#[trigger] assignments[i]) < clusters || (clusters == 0
            && assignments[i] == 0)
}

/// The points of cluster `c`, in ascending order.
pub open spec fn members_of(assignments: Seq<usize>, c: usize) -> Seq<usize>
    decreases assignments.len(),
{
    if assignments.len() == 0 {
        Seq::empty()
    } else {
        let before = members_of(assignments.drop_last(), c);
        if assignments.last() == c {
            before.push((assignments.len() - 1) as usize)
        } else {
            before
        }
    }
}

/// The points of each cluster.
pub open spec fn all_members(assignments: Seq<usize>, clusters: nat) -> Seq<Seq<usize>> {
    Seq::new(clusters, |c: int| members_of(assignments, c as usize))
}

/// Collects the points of each cluster.
pub fn collect_members(assignments: &Vec<usize>, clusters: usize) -> (members: Vec<Vec<usize>>)
    requires
        forall|i: int| 0 <= i < assignments@.len() ==> (#[trigger] assignments@[i]) < clusters,
    ensures
        nested(members@) == all_members(assignments@, clusters as nat),
{
    let mut members: Vec<Vec<usize>> = Vec::new();
    let mut c: usize = 0;
    while c < clusters
        invariant
            c <= clusters,
            members@.len() == c,
            forall|d: int| 0 <= d < c ==> (#[trigger] members@[d])@ == Seq::<usize>::empty(),
        decreases clusters - c,
    {
        members.push(Vec::new());
        c = c + 1;
    }
    assert(assignments@.take(0) =~= Seq::empty());
    assert(nested(members@) =~= all_members(assignments@.take(0), clusters as nat));
    let mut i: usize = 0;
    while i < assignments.len()
        invariant
            i <= assignments@.len(),
            forall|p: int| 0 <= p < assignments@.len() ==> (#[trigger] assignments@[p]) < clusters,
            nested(members@) == all_members(assignments@.take(i as int), clusters as nat),
        decreases assignments.len() - i,
    {
        let cluster: usize = assignments[i];
        let ghost before = members@;
        assert(nested(before).len() == clusters);
        assert(nested(before)[cluster as int] == before[cluster as int]@);
        members[cluster].push(i);
        proof {
            assert(assignments@.take(i + 1).drop_last() =~= assignments@.take(i as int));
            let after = all_members(assignments@.take(i + 1), clusters as nat);
            assert forall|d: int| 0 <= d < clusters implies #[trigger] nested(members@)[d]
                == after[d] by {
                assert(nested(before)[d] == before[d]@);
            }
            assert(nested(members@) =~= after);
        }
        i = i + 1;
    }
    assert(assignments@.take(i as int) =~= assignments@);
    members
}

impl KMeans {
    /// This is `before` after a round that found these centroids nearest, and `step` is what comes
    /// of it.
    pub open spec fn is_round(self, before: Self, nearest: Seq<usize>, step: KMeansStep) -> bool {
        &&& self.clusters == before.clusters
        &&& self.assignments@ == nearest
        &&& self.rounds == before.rounds - 1
        &&& nearest == before.assignments@ ==> step is Converged
        &&& nearest != before.assignments@ ==> {
            &&& step matches KMeansStep::Recenter { members }
            &&& nested(members@) == all_members(nearest, before.clusters as nat)
        }
    }

    /// Each point is in a cluster.
    pub open spec fn wf(self) -> bool {
        in_clusters(self.assignments@, self.clusters as nat)
    }

    /// A clustering of `points` points in which all of them are in the first cluster.
    pub fn new(points: usize, clusters: usize) -> (clustering: Self)
        ensures
            clustering.wf(),
            clustering.clusters == clusters,
            clustering.assignments@ == Seq::new(points as nat, |i: int| 0usize),
            clustering.rounds == 50,
    {
        let mut assignments: Vec<usize> = Vec::new();
        let mut i: usize = 0;
        while i < points
            invariant
                i <= points,
                assignments@ == Seq::new(i as nat, |j: int| 0usize),
            decreases points - i,
        {
            assignments.push(0);
            i = i + 1;
            assert(assignments@ =~= Seq::new(i as nat, |j: int| 0usize));
        }
        KMeans { clusters, assignments, rounds: MAX_ROUNDS }
    }

    /// Runs one round, given the centroid that is nearest to each point now.
    pub fn advance(&mut self, nearest: Vec<usize>) -> (step: KMeansStep)
        requires
            old(self).wf(),
            old(self).rounds > 0,
            nearest@.len() == old(self).assignments@.len(),
            in_clusters(nearest@, old(self).clusters as nat),
        ensures
            final(self).wf(),
            final(self).is_round(*old(self), nearest@, step),
    {
        self.rounds = self.rounds - 1;
        let mut same = true;
        let mut i: usize = 0;
        assert(nearest@.take(0) =~= self.assignments@.take(0));
        while i < nearest.len()
            invariant
                i <= nearest@.len(),
                nearest@.len() == self.assignments@.len(),
                same == (nearest@.take(i as int) == self.assignments@.take(i as int)),
            decreases nearest.len() - i,
        {
            let ghost now = nearest@.take(i + 1);
            let ghost then = self.assignments@.take(i + 1);
            proof {
                assert(now =~= nearest@.take(i as int).push(nearest@[i as int]));
                assert(then =~= self.assignments@.take(i as int).push(
                    self.assignments@[i as int],
                ));
                if now == then {
                    assert(now.drop_last() =~= nearest@.take(i as int));
                    assert(then.drop_last() =~= self.assignments@.take(i as int));
                    assert(now.last() == then.last());
                }
            }
            if nearest[i] != self.assignments[i] {
                same = false;
            }
            i = i + 1;
        }
        assert(nearest@.take(i as int) =~= nearest@);
        assert(self.assignments@.take(i as int) =~= self.assignments@);
        if same {
            return KMeansStep::Converged;
        }
        proof {
            if self.clusters == 0 {
                assert(nearest@ =~= self.assignments@);
            }
        }
        let members = collect_members(&nearest, self.clusters);
        self.assignments = nearest;
        KMeansStep::Recenter { members }
    }
}

/// Two points that are at the same distances from the centroids in every round, as equal points
/// are, end in the same cluster, wherever the centroids start. `states[t]` is the clustering after
/// `t` rounds, `nearest[t]` what round `t` is given, and `distances[t][p]` what the centroid for
/// point `p` is found from there.
pub proof fn law_equal_points_share_a_cluster(
    states: Seq<KMeans>,
    nearest: Seq<Seq<usize>>,
    distances: Seq<Seq<Seq<Binary64>>>,
    i: int,
    j: int,
)
    requires
        states.len() == nearest.len() + 1,
        distances.len() == nearest.len(),
        states[0].assignments@ == Seq::new(states[0].assignments@.len(), |p: int| 0usize),
        0 <= i < states[0].assignments@.len(),
        0 <= j < states[0].assignments@.len(),
        forall|t: int|
            0 <= t < nearest.len() ==> (#[trigger] states[t + 1]).assignments@ == nearest[t],
        forall|t: int|
            0 <= t < nearest.len() ==> {
                &&& is_assigned((#[trigger] distances[t])[i], nearest[t][i])
                &&& is_assigned(distances[t][j], nearest[t][j])
                &&& distances[t][i] == distances[t][j]
            },
    ensures
        states.last().assignments@[i] == states.last().assignments@[j],
{
    if nearest.len() > 0 {
        let t = nearest.len() - 1;
        assert(states[t + 1].assignments@ == nearest[t]);
        let row = distances[t][i];
        if exists|c: int| #[trigger] is_nearest(row, c) {
            let c = choose|c: int| #[trigger] is_nearest(row, c);
            assert(nearest[t][i] == c);
        }
    }
}

/// The choice of the points at which centroids start, spread out by k-means++.
pub struct Seeding {
    /// How many points there are to choose from.
    pub points: usize,
    /// How many centroids are wanted.
    pub wanted: usize,
    /// The points chosen, in order.
    pub chosen: Vec<usize>,
}

/// Where the running remainder drops to zero or below first.
pub open spec fn first_spent(remainders: Seq<Binary64>, i: int) -> bool {
    &&& 0 <= i < remainders.len()
    &&& !remainders[i].nan() && remainders[i].rank() <= 0
    &&& forall|j: int|
        0 <= j < i ==> (#[trigger] remainders[j]).nan() || remainders[j].rank() > 0
}

/// Whether this is the point that a weighted draw falls on: where it is spent, or the first point
/// where it never is.
pub open spec fn is_weighted_choice(remainders: Seq<Binary64>, point: usize) -> bool {
    &&& forall|i: int| #[trigger] first_spent(remainders, i) ==> point == i
    &&& (forall|i: int| !#[trigger] first_spent(remainders, i)) ==> point == 0
}

/// The point that a weighted draw falls on. `remainders[i]` is what is left of the draw once the
/// weights of the points up to `i` are taken off it. A draw that is never spent falls on the first.
pub fn weighted_choice(remainders: &Vec<Binary64>) -> (point: usize)
    ensures
        is_weighted_choice(remainders@, point),
        remainders@.len() > 0 ==> point < remainders@.len(),
{
    let mut i: usize = 0;
    while i < remainders.len()
        invariant
            i <= remainders@.len(),
            forall|j: int|
                0 <= j < i ==> (#[trigger] remainders@[j]).nan() || remainders@[j].rank() > 0,
        decreases remainders.len() - i,
    {
        if !remainders[i].is_nan() && remainders[i].to_rank() <= 0 {
            assert(first_spent(remainders@, i as int));
            return i;
        }
        i = i + 1;
    }
    0
}

impl Seeding {
    /// No more centroids than wanted, each at a point.
    pub open spec fn wf(self) -> bool {
        &&& self.chosen@.len() <= self.wanted
        &&& forall|i: int| 0 <= i < self.chosen@.len() ==> (#[trigger] self.chosen@[i]) < self.points
    }

    /// This is `before` with one more point chosen.
    pub open spec fn extends(self, before: Self) -> bool {
        &&& self.points == before.points
        &&& self.wanted == before.wanted
        &&& self.chosen@.len() == before.chosen@.len() + 1
        &&& self.chosen@.drop_last() == before.chosen@
    }

    /// Begins to choose. The first centroid is at any point; without points none is wanted.
    pub fn new(points: usize, wanted: usize) -> (seeding: Self)
        ensures
            seeding.wf(),
            seeding.points == points,
            points == 0 || wanted == 0 ==> seeding.wanted == 0 && seeding.chosen@.len() == 0,
            points > 0 && wanted > 0 ==> seeding.wanted == wanted && seeding.chosen@.len() == 1,
    {
        let mut chosen: Vec<usize> = Vec::new();
        if points == 0 || wanted == 0 {
            return Seeding { points, wanted: 0, chosen };
        }
        chosen.push(random_below(points));
        Seeding { points, wanted, chosen }
    }

    /// Tells whether centroids are still wanted.
    pub fn is_incomplete(&self) -> (answer: bool)
        ensures
            answer == (self.chosen@.len() < self.wanted),
    {
        self.chosen.len() < self.wanted
    }

    /// Tells whether all points coincide with chosen ones, given the sum of the squared distances
    /// of the points from the chosen ones. Then any point is as good as another.
    pub fn all_chosen(total: Binary64) -> (answer: bool)
        ensures
            answer == total.below(Binary64 { bits: NEGLIGIBLE }),
    {
        total.is_below(Binary64 { bits: NEGLIGIBLE })
    }

    /// Chooses any point.
    pub fn choose_any(&mut self)
        requires
            old(self).wf(),
            old(self).points > 0,
            old(self).chosen@.len() < old(self).wanted,
        ensures
            final(self).wf(),
            final(self).extends(*old(self)),
    {
        self.chosen.push(random_below(self.points));
        assert(self.chosen@.drop_last() =~= old(self).chosen@);
    }

    /// Chooses one more point: any one where all points coincide with chosen ones, and otherwise the
    /// one that a draw weighted by squared distance falls on. `total` is the sum of the squared
    /// distances of the points from the chosen ones.
    pub fn choose_next(&mut self, total: Binary64, remainders: &Vec<Binary64>)
        requires
            old(self).wf(),
            old(self).points > 0,
            old(self).chosen@.len() < old(self).wanted,
            remainders@.len() == old(self).points,
        ensures
            final(self).wf(),
            final(self).extends(*old(self)),
            !total.below(Binary64 { bits: NEGLIGIBLE }) ==> is_weighted_choice(
                remainders@,
                final(self).chosen@.last(),
            ),
    {
        if Self::all_chosen(total) {
            self.choose_any();
        } else {
            self.choose_weighted(remainders);
        }
    }

    /// Chooses the point that a draw weighted by squared distance falls on.
    pub fn choose_weighted(&mut self, remainders: &Vec<Binary64>)
        requires
            old(self).wf(),
            old(self).points > 0,
            old(self).chosen@.len() < old(self).wanted,
            remainders@.len() == old(self).points,
        ensures
            final(self).wf(),
            final(self).extends(*old(self)),
            is_weighted_choice(remainders@, final(self).chosen@.last()),
    {
        self.chosen.push(weighted_choice(remainders));
        assert(self.chosen@.drop_last() =~= old(self).chosen@);
    }
}

/// The members of a cluster are the points assigned to it, in ascending order.
pub proof fn law_members(assignments: Seq<usize>, c: usize)
    requires
        assignments.len() <= usize::MAX,
    ensures
        forall|i: usize| #[trigger]
            members_of(assignments, c).contains(i) == (i < assignments.len()
                && assignments[i as int] == c),
        forall|p: int, q: int|
            #![trigger members_of(assignments, c)[p], members_of(assignments, c)[q]]
            0 <= p < q < members_of(assignments, c).len() ==> members_of(assignments, c)[p]
                < members_of(assignments, c)[q],
    decreases assignments.len(),
{
    if assignments.len() > 0 {
        let last = (assignments.len() - 1) as usize;
        let init = assignments.drop_last();
        let before = members_of(init, c);
        let after = members_of(assignments, c);
        law_members(init, c);
        assert forall|i: usize| #[trigger] after.contains(i) == (i < assignments.len()
            && assignments[i as int] == c) by {
            if before.contains(i) {
                let p = choose|p: int| 0 <= p < before.len() && before[p] == i;
                assert(after[p] == i);
            }
            if after.contains(i) {
                let p = choose|p: int| 0 <= p < after.len() && after[p] == i;
                if p < before.len() {
                    assert(before[p] == i);
                }
            }
            if i == last && assignments.last() == c {
                assert(after[before.len() as int] == i);
            }
        }
        assert forall|p: int, q: int|
            #![trigger after[p], after[q]]
            0 <= p < q < after.len() implies after[p] < after[q] by {
            assert(before.contains(before[p]));
        }
    }
}

/// The centroid that a point goes to: if any distance is finite, that of the centroid is, none is
/// shorter, and those in front are longer or no number; else it is the first centroid.
pub proof fn law_point_goes_to_the_nearest(distances: Seq<Binary64>, best: usize)
    requires
        is_assigned(distances, best),
    ensures
        (exists|c: int|
            0 <= c < distances.len() && !(#[trigger] distances[c]).nan() && distances[c].rank()
                < 0x7ff0_0000_0000_0000) ==> {
            &&& best < distances.len()
            &&& !distances[best as int].nan()
            &&& forall|c: int|
                0 <= c < distances.len() ==> (#[trigger] distances[c]).nan()
                    || distances[best as int].rank() <= distances[c].rank()
            &&& forall|c: int|
                0 <= c < best ==> (#[trigger] distances[c]).nan() || distances[best as int].rank()
                    < distances[c].rank()
        },
        !(exists|c: int|
            0 <= c < distances.len() && !(#[trigger] distances[c]).nan() && distances[c].rank()
                < 0x7ff0_0000_0000_0000) ==> best == 0,
{
    if exists|c: int|
        0 <= c < distances.len() && !(#[trigger] distances[c]).nan() && distances[c].rank()
            < 0x7ff0_0000_0000_0000 {
        let c = choose|c: int|
            0 <= c < distances.len() && !(#[trigger] distances[c]).nan() && distances[c].rank()
                < 0x7ff0_0000_0000_0000;
        let nearest = lemma_some_nearest(distances, c);
        assert(best == nearest);
        assert forall|c: int| 0 <= c < distances.len() implies (#[trigger] distances[c]).nan()
            || distances[best as int].rank() <= distances[c].rank() by {
            assert(!distances[c].below(distances[nearest]));
        }
    } else {
        assert forall|c: int| !#[trigger] is_nearest(distances, c) by {
            if is_nearest(distances, c) {
                assert(!distances[c].nan());
            }
        }
    }
}

proof fn lemma_some_nearest(distances: Seq<Binary64>, c: int) -> (nearest: int)
    requires
        0 <= c < distances.len(),
        distances[c].below(infinity()),
    ensures
        is_nearest(distances, nearest),
    decreases distances.len(),
{
    let init = distances.drop_last();
    let last = distances.len() - 1;
    if exists|r: int| 0 <= r < init.len() && (#[trigger] init[r]).below(infinity()) {
        let r = choose|r: int| 0 <= r < init.len() && (#[trigger] init[r]).below(infinity());
        let p = lemma_some_nearest(init, r);
        assert forall|s: int| 0 <= s < last implies distances[s] == #[trigger] init[s] by {}
        if distances[last].below(distances[p]) {
            assert forall|s: int| 0 <= s < last implies (#[trigger] distances[s]).nan()
                || distances[last].below(distances[s]) by {
                assert(!init[s].below(init[p]));
            }
            assert(is_nearest(distances, last));
            last
        } else {
            assert forall|s: int| 0 <= s < distances.len() implies !(#[trigger] distances[s]).below(
                distances[p],
            ) by {
                if s < last {
                    assert(!init[s].below(init[p]));
                }
            }
            assert forall|s: int| 0 <= s < p implies (#[trigger] distances[s]).nan()
                || distances[p].below(distances[s]) by {
                assert(init[s].nan() || init[p].below(init[s]));
            }
            assert(is_nearest(distances, p));
            p
        }
    } else {
        assert(c == last) by {
            if c < last {
                assert(init[c].below(infinity()));
            }
        }
        assert forall|s: int| 0 <= s < last implies (#[trigger] distances[s]).nan()
            || distances[last].below(distances[s]) by {
            assert(distances[s] == init[s]);
            assert(!init[s].below(infinity()));
        }
        assert(is_nearest(distances, last));
        last
    }
}

/// The point that a weighted draw falls on: the first at which no more than zero is left of the
/// draw, or the first point where more is left at every one.
pub proof fn law_draw_falls_where_it_is_spent(remainders: Seq<Binary64>, point: usize)
    requires
        is_weighted_choice(remainders, point),
    ensures
        (exists|i: int|
            0 <= i < remainders.len() && !(#[trigger] remainders[i]).nan() && remainders[i].rank()
                <= 0) ==> {
            &&& point < remainders.len()
            &&& !remainders[point as int].nan() && remainders[point as int].rank() <= 0
            &&& forall|i: int|
                0 <= i < point ==> (#[trigger] remainders[i]).nan() || remainders[i].rank() > 0
        },
        !(exists|i: int|
            0 <= i < remainders.len() && !(#[trigger] remainders[i]).nan() && remainders[i].rank()
                <= 0) ==> point == 0,
{
    if exists|i: int|
        0 <= i < remainders.len() && !(#[trigger] remainders[i]).nan() && remainders[i].rank() <= 0 {
        let i = choose|i: int|
            0 <= i < remainders.len() && !(#[trigger] remainders[i]).nan() && remainders[i].rank()
                <= 0;
        let first = lemma_first_spent(remainders, i);
        assert(point == first);
    } else {
        assert forall|i: int| !#[trigger] first_spent(remainders, i) by {
            if first_spent(remainders, i) {
                assert(!remainders[i].nan());
            }
        }
    }
}

proof fn lemma_first_spent(remainders: Seq<Binary64>, i: int) -> (first: int)
    requires
        0 <= i < remainders.len(),
        !remainders[i].nan(),
        remainders[i].rank() <= 0,
    ensures
        first_spent(remainders, first),
    decreases i,
{
    if exists|j: int|
        0 <= j < i && !(#[trigger] remainders[j]).nan() && remainders[j].rank() <= 0 {
        let j = choose|j: int|
            0 <= j < i && !(#[trigger] remainders[j]).nan() && remainders[j].rank() <= 0;
        lemma_first_spent(remainders, j)
    } else {
        assert(first_spent(remainders, i));
        i
    }
}

/// As many clusters are looked for as asked for, or as there are rows where there are fewer. Rows
/// are clustered by as many columns as there are clusters, as far as there are: those behind the
/// first one where there are more columns than clusters, and all from the first on otherwise. The
/// entries selected are those in these columns.
pub proof fn law_columns_used(
    window: ColumnWindow,
    n: nat,
    columns: nat,
    k: nat,
    row: Seq<Binary64>,
    c: int,
)
    requires
        is_column_window(window, n, columns, k),
        row.len() == columns,
    ensures
        window.clusters <= k,
        window.clusters <= n,
        window.clusters == k || window.clusters == n,
        window.clusters < columns ==> selected(window, row).len() == window.clusters,
        window.clusters < columns && 0 <= c < window.clusters ==> selected(window, row)[c] == row[c
            + 1],
        window.clusters >= columns ==> selected(window, row) == row,
{
    if window.clusters >= columns {
        assert(selected(window, row) =~= row);
    }
}

/// There is a list of members for each cluster, and a point is in the list of a cluster if and only
/// if it is assigned to it.
pub proof fn law_members_by_cluster(assignments: Seq<usize>, clusters: nat, c: usize, i: usize)
    requires
        assignments.len() <= usize::MAX,
        c < clusters,
    ensures
        all_members(assignments, clusters).len() == clusters,
        all_members(assignments, clusters)[c as int].contains(i) == (i < assignments.len()
            && assignments[i as int] == c),
        all_members(assignments, clusters)[c as int].no_duplicates(),
{
    law_members(assignments, c);
}

/// After a round each point is in the cluster of the centroid that was nearest to it, and one round
/// less is left. The clusters are final if and only if no point changed its cluster; otherwise there
/// is a list for each cluster, of exactly the points that are in it now.
pub proof fn law_round(
    after: KMeans,
    before: KMeans,
    nearest: Seq<usize>,
    step: KMeansStep,
    c: usize,
    i: usize,
)
    requires
        after.is_round(before, nearest, step),
        nearest.len() == before.assignments@.len(),
        nearest.len() <= usize::MAX,
    ensures
        after.assignments@ == nearest,
        after.rounds == before.rounds - 1,
        after.clusters == before.clusters,
        step is Converged == (forall|p: int|
            0 <= p < nearest.len() ==> #[trigger] nearest[p] == before.assignments@[p]),
        step matches KMeansStep::Recenter { members } ==> {
            &&& members@.len() == before.clusters
            &&& c < before.clusters ==> members@[c as int]@.contains(i) == (i < nearest.len()
                && nearest[i as int] == c)
            &&& c < before.clusters ==> members@[c as int]@.no_duplicates()
        },
{
    if forall|p: int| 0 <= p < nearest.len() ==> #[trigger] nearest[p] == before.assignments@[p] {
        assert(nearest =~= before.assignments@);
    }
    if let KMeansStep::Recenter { members } = step {
        assert(nested(members@).len() == members@.len());
        if c < before.clusters {
            law_members_by_cluster(nearest, before.clusters as nat, c, i);
            assert(nested(members@)[c as int] == members@[c as int]@);
        }
    }
}

} // verus!
