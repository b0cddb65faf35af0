//! How well clusters match ground-truth labels: the Adjusted Rand Index, over counts of pairs.

use std::collections::HashMap;
use vstd::hash_map::StringHashMap;
use vstd::prelude::*;
use vstd::relations::injective_on;
use vstd::set_lib::{lemma_map_size, lemma_set_disjoint_lens};

use crate::labels::label_texts;

verus! {

broadcast use vstd::std_specs::hash::group_hash_axioms;

/// How often `value` is among some values.
pub open spec fn count_of<T>(values: Seq<T>, value: T) -> nat
    decreases values.len(),
{
    if values.len() == 0 {
        0
    } else {
        count_of(values.drop_last(), value) + (if values.last() == value {
            1nat
        } else {
            0nat
        })
    }
}

/// How many pairs of positions hold equal values.
pub open spec fn equal_pairs<T>(values: Seq<T>) -> nat
    decreases values.len(),
{
    if values.len() == 0 {
        0
    } else {
        equal_pairs(values.drop_last()) + count_of(values.drop_last(), values.last())
    }
}

/// The number of pairs of `n` things.
pub open spec fn pairs_of(n: nat) -> nat {
    (n * (n - 1) / 2) as nat
}

/// The labelled points: the cluster and the label of each, in the order of the points.
pub open spec fn labelled_points(
    assignments: Seq<usize>,
    labels: Map<usize, Seq<char>>,
) -> Seq<(usize, Seq<char>)>
    decreases assignments.len(),
{
    if assignments.len() == 0 {
        Seq::empty()
    } else {
        let before = labelled_points(assignments.drop_last(), labels);
        let i = (assignments.len() - 1) as usize;
        if labels.contains_key(i) {
            before.push((assignments.last(), labels[i]))
        } else {
            before
        }
    }
}

/// The clusters of some labelled points.
pub open spec fn clusters_of(points: Seq<(usize, Seq<char>)>) -> Seq<usize> {
    points.map_values(|point: (usize, Seq<char>)| point.0)
}

/// The labels of some labelled points.
pub open spec fn labels_of(points: Seq<(usize, Seq<char>)>) -> Seq<Seq<char>> {
    points.map_values(|point: (usize, Seq<char>)| point.1)
}

/// What the Adjusted Rand Index is computed from: numbers of pairs of labelled points.
#[derive(Debug, PartialEq, Eq, Clone, Copy)]
pub struct PairCounts {
    /// All pairs.
    pub pairs: u128,
    /// Pairs in the same cluster and with the same label.
    pub agreeing: u128,
    /// Pairs in the same cluster.
    pub same_cluster: u128,
    /// Pairs with the same label.
    pub same_label: u128,
}

/// How well clusters match labels.
#[derive(Debug, PartialEq, Eq, Clone, Copy)]
pub enum QualityScore {
    /// No point has a label: the score is zero.
    Unlabelled,
    /// The best index there can be is the one to expect by chance, as it is where there is no pair:
    /// the score is one.
    Certain,
    /// The score is the Adjusted Rand Index of these counts, `(agreeing - expected) / (maximum -
    /// expected)`, where `expected = same_cluster * same_label / pairs` and
    /// `maximum = (same_cluster + same_label) / 2`.
    Index(PairCounts),
}

impl PairCounts {
    /// These are the counts of some labelled points.
    pub open spec fn counts(self, points: Seq<(usize, Seq<char>)>) -> bool {
        &&& self.pairs == pairs_of(points.len())
        &&& self.agreeing == equal_pairs(points)
        &&& self.same_cluster == equal_pairs(clusters_of(points))
        &&& self.same_label == equal_pairs(labels_of(points))
    }

    /// The Adjusted Rand Index times its denominator below.
    pub open spec fn index_numerator(self) -> int {
        2 * (self.pairs * self.agreeing - self.same_cluster * self.same_label)
    }

    /// What the Adjusted Rand Index is over: by how much the best index exceeds the expected one,
    /// times twice the number of pairs.
    pub open spec fn index_denominator(self) -> int {
        self.pairs * (self.same_cluster + self.same_label) - 2 * (self.same_cluster
            * self.same_label)
    }
}

proof fn lemma_count_bound<T>(values: Seq<T>, value: T)
    ensures
        count_of(values, value) <= values.len(),
    decreases values.len(),
{
    if values.len() > 0 {
        lemma_count_bound(values.drop_last(), value);
    }
}

/// No things make no pairs.
proof fn lemma_no_pairs()
    ensures
        pairs_of(0) == 0,
{
    assert(0 * (0 - 1) == 0) by (nonlinear_arith);
}

proof fn lemma_pairs_step(n: nat)
    requires
        n > 0,
    ensures
        pairs_of(n) == pairs_of((n - 1) as nat) + (n - 1),
{
    assert(n * (n - 1) == (n - 1) * (n - 2) + 2 * (n - 1)) by (nonlinear_arith);
    let k = n - 1;
    if k == 0 {
        lemma_no_pairs();
        assert(pairs_of(1) == 0) by {
            assert(1int * (1int - 1) == 0) by (nonlinear_arith);
        }
    } else {
        assert(k * (k - 1) >= 0) by (nonlinear_arith)
            requires
                k >= 1,
        ;
    }
}

proof fn lemma_pairs_monotone(m: nat, n: nat)
    requires
        m <= n,
    ensures
        pairs_of(m) <= pairs_of(n),
    decreases n - m,
{
    if m < n {
        lemma_pairs_step(n);
        lemma_pairs_monotone(m, (n - 1) as nat);
    }
}

proof fn lemma_pairs_fit(n: nat)
    requires
        n <= usize::MAX,
    ensures
        pairs_of(n) <= u128::MAX / 2,
{
    assert(0 <= n * (n - 1) <= u128::MAX) by (nonlinear_arith)
        requires
            0 <= n <= 0xffff_ffff_ffff_ffff,
    ;
}

/// There are no more pairs of equal values than pairs.
proof fn lemma_equal_pairs_bound<T>(values: Seq<T>)
    ensures
        equal_pairs(values) <= pairs_of(values.len()),
    decreases values.len(),
{
    if values.len() > 0 {
        lemma_equal_pairs_bound(values.drop_last());
        lemma_count_bound(values.drop_last(), values.last());
        lemma_pairs_step(values.len());
    } else {
        lemma_no_pairs();
    }
}

/// Two sequences are equal at the same positions.
pub open spec fn same_equalities<T, U>(left: Seq<T>, right: Seq<U>) -> bool {
    &&& left.len() == right.len()
    &&& forall|p: int, q: int|
        #![trigger left[p], left[q]]
        #![trigger right[p], right[q]]
        0 <= p < left.len() && 0 <= q < left.len() ==> (left[p] == left[q]) == (right[p]
            == right[q])
}

proof fn lemma_count_same<T, U>(left: Seq<T>, right: Seq<U>, m: int, last: int)
    requires
        same_equalities(left, right),
        0 <= m <= left.len(),
        0 <= last < left.len(),
    ensures
        count_of(left.take(m), left[last]) == count_of(right.take(m), right[last]),
    decreases m,
{
    if m > 0 {
        lemma_count_same(left, right, m - 1, last);
        assert(left.take(m).drop_last() =~= left.take(m - 1));
        assert(right.take(m).drop_last() =~= right.take(m - 1));
        assert((left[m - 1] == left[last]) == (right[m - 1] == right[last]));
    }
}

proof fn lemma_pairs_same<T, U>(left: Seq<T>, right: Seq<U>, m: int)
    requires
        same_equalities(left, right),
        0 <= m <= left.len(),
    ensures
        equal_pairs(left.take(m)) == equal_pairs(right.take(m)),
    decreases m,
{
    if m > 0 {
        lemma_pairs_same(left, right, m - 1);
        lemma_count_same(left, right, m - 1, m - 1);
        assert(left.take(m).drop_last() =~= left.take(m - 1));
        assert(right.take(m).drop_last() =~= right.take(m - 1));
    }
}

/// The number of equal pairs depends on nothing but which positions hold equal values: neither the
/// names of the clusters nor those of the labels matter.
pub proof fn law_names_do_not_matter<T, U>(left: Seq<T>, right: Seq<U>)
    requires
        same_equalities(left, right),
    ensures
        equal_pairs(left) == equal_pairs(right),
{
    lemma_pairs_same(left, right, left.len() as int);
    assert(left.take(left.len() as int) =~= left);
    assert(right.take(right.len() as int) =~= right);
}

/// Counts the pairs of equal keys.
fn count_equal_pairs(keys: &Vec<u128>) -> (pairs: u128)
    ensures
        pairs == equal_pairs(keys@),
{
    let mut counts: HashMap<u128, usize> = HashMap::new();
    let mut pairs: u128 = 0;
    let mut i: usize = 0;
    assert(keys@.take(0) =~= Seq::empty());
    while i < keys.len()
        invariant
            i <= keys@.len(),
            pairs == equal_pairs(keys@.take(i as int)),
            forall|key: u128|
                counts@.contains_key(key) ==> #[trigger] counts@[key] == count_of(
                    keys@.take(i as int),
                    key,
                ),
            forall|key: u128|
                !(#[trigger] counts@.contains_key(key)) ==> count_of(keys@.take(i as int), key)
                    == 0,
        decreases keys.len() - i,
    {
        let key: u128 = keys[i];
        let ghost before = keys@.take(i as int);
        let ghost after = keys@.take(i + 1);
        proof {
            assert(after.drop_last() =~= before);
            lemma_count_bound(before, key);
            lemma_equal_pairs_bound(before);
            lemma_pairs_fit(i as nat);
        }
        let count: usize = match counts.get(&key) {
            Some(count) => *count,
            None => 0,
        };
        assert(count == count_of(before, key));
        pairs = pairs + count as u128;
        counts.insert(key, count + 1);
        i = i + 1;
    }
    assert(keys@.take(i as int) =~= keys@);
    pairs
}

/// The number of pairs of `n` things.
fn count_pairs(n: usize) -> (pairs: u128)
    ensures
        pairs == pairs_of(n as nat),
{
    if n == 0 {
        proof {
            lemma_no_pairs();
        }
        return 0;
    }
    proof {
        lemma_pairs_fit(n as nat);
        assert(n as u128 * (n - 1) as u128 <= u128::MAX) by (nonlinear_arith)
            requires
                0 < n <= 0xffff_ffff_ffff_ffff,
        ;
    }
    (n as u128) * ((n - 1) as u128) / 2
}

/// Counts pairs of labelled points, each given by its cluster and a number for its label.
fn count_pairs_of_points(clusters: &Vec<usize>, label_ids: &Vec<usize>, Ghost(points): Ghost<
    Seq<(usize, Seq<char>)>,
>) -> (counts: PairCounts)
    requires
        clusters@ == clusters_of(points),
        same_equalities(label_ids@, labels_of(points)),
    ensures
        counts.counts(points),
{
    let mut cluster_keys: Vec<u128> = Vec::new();
    let mut label_keys: Vec<u128> = Vec::new();
    let mut cell_keys: Vec<u128> = Vec::new();
    let mut i: usize = 0;
    while i < clusters.len()
        invariant
            i <= clusters@.len(),
            clusters@.len() == label_ids@.len(),
            cluster_keys@.len() == i,
            label_keys@.len() == i,
            cell_keys@.len() == i,
            forall|p: int| 0 <= p < i ==> #[trigger] cluster_keys@[p] == clusters@[p],
            forall|p: int| 0 <= p < i ==> #[trigger] label_keys@[p] == label_ids@[p],
            forall|p: int|
                0 <= p < i ==> #[trigger] cell_keys@[p] == clusters@[p] * 0x1_0000_0000_0000_0000
                    + label_ids@[p],
        decreases clusters.len() - i,
    {
        let cluster: u128 = clusters[i] as u128;
        let label: u128 = label_ids[i] as u128;
        cluster_keys.push(cluster);
        label_keys.push(label);
        cell_keys.push(cluster * 0x1_0000_0000_0000_0000 + label);
        i = i + 1;
    }
    proof {
        let ids = label_ids@;
        let names = labels_of(points);
        assert(same_equalities(cluster_keys@, clusters@));
        law_names_do_not_matter(cluster_keys@, clusters@);
        assert(same_equalities(label_keys@, names)) by {
            assert forall|p: int, q: int|
                #![trigger label_keys@[p], label_keys@[q]]
                #![trigger names[p], names[q]]
                0 <= p < names.len() && 0 <= q < names.len() implies (label_keys@[p]
                == label_keys@[q]) == (names[p] == names[q]) by {
                let _ = ids[p];
                let _ = ids[q];
            }
        }
        law_names_do_not_matter(label_keys@, names);
        assert(same_equalities(cell_keys@, points)) by {
            assert forall|p: int, q: int|
                #![trigger cell_keys@[p], cell_keys@[q]]
                #![trigger points[p], points[q]]
                0 <= p < points.len() && 0 <= q < points.len() implies (cell_keys@[p]
                == cell_keys@[q]) == (points[p] == points[q]) by {
                assert((ids[p] == ids[q]) == (names[p] == names[q]));
                assert(clusters@[p] == points[p].0);
                assert(clusters@[q] == points[q].0);
                assert(names[p] == points[p].1);
                assert(names[q] == points[q].1);
            }
        }
        law_names_do_not_matter(cell_keys@, points);
    }
    PairCounts {
        pairs: count_pairs(clusters.len()),
        agreeing: count_equal_pairs(&cell_keys),
        same_cluster: count_equal_pairs(&cluster_keys),
        same_label: count_equal_pairs(&label_keys),
    }
}

/// No pair agrees without being in the same cluster and having the same label.
proof fn lemma_agreeing_bound(points: Seq<(usize, Seq<char>)>)
    ensures
        equal_pairs(points) <= equal_pairs(clusters_of(points)),
        equal_pairs(points) <= equal_pairs(labels_of(points)),
    decreases points.len(),
{
    if points.len() > 0 {
        let init = points.drop_last();
        lemma_agreeing_bound(init);
        assert(clusters_of(points).drop_last() =~= clusters_of(init));
        assert(labels_of(points).drop_last() =~= labels_of(init));
        lemma_cell_count_bound(init, points.last());
    }
}

proof fn lemma_cell_count_bound(points: Seq<(usize, Seq<char>)>, point: (usize, Seq<char>))
    ensures
        count_of(points, point) <= count_of(clusters_of(points), point.0),
        count_of(points, point) <= count_of(labels_of(points), point.1),
    decreases points.len(),
{
    if points.len() > 0 {
        let init = points.drop_last();
        lemma_cell_count_bound(init, point);
        assert(clusters_of(points).drop_last() =~= clusters_of(init));
        assert(labels_of(points).drop_last() =~= labels_of(init));
    }
}

/// The best index is the expected one if and only if all pairs, or none, are in the same cluster,
/// and the same holds of labels.
proof fn lemma_degenerate(pairs: int, a: int, b: int)
    requires
        0 <= a <= pairs,
        0 <= b <= pairs,
        pairs > 0,
    ensures
        pairs * (a + b) - 2 * (a * b) >= 0,
        (pairs * (a + b) - 2 * (a * b) == 0) == ((a == 0 && b == 0) || (a == pairs && b == pairs)),
{
    assert(pairs * (a + b) - 2 * (a * b) == a * (pairs - b) + b * (pairs - a)) by (nonlinear_arith);
    assert(a * (pairs - b) >= 0) by (nonlinear_arith)
        requires
            a >= 0,
            pairs - b >= 0,
    ;
    assert(b * (pairs - a) >= 0) by (nonlinear_arith)
        requires
            b >= 0,
            pairs - a >= 0,
    ;
    if a > 0 && b < pairs {
        assert(a * (pairs - b) > 0) by (nonlinear_arith)
            requires
                a > 0,
                pairs - b > 0,
        ;
    }
    if b > 0 && a < pairs {
        assert(b * (pairs - a) > 0) by (nonlinear_arith)
            requires
                b > 0,
                pairs - a > 0,
        ;
    }
    if a == 0 && b == 0 {
        assert(a * (pairs - b) == 0) by (nonlinear_arith)
            requires
                a == 0,
        ;
        assert(b * (pairs - a) == 0) by (nonlinear_arith)
            requires
                b == 0,
        ;
    }
    if a == pairs && b == pairs {
        assert(a * (pairs - b) == 0) by (nonlinear_arith)
            requires
                pairs - b == 0,
        ;
        assert(b * (pairs - a) == 0) by (nonlinear_arith)
            requires
                pairs - a == 0,
        ;
    }
}

/// Whether a score is that of some labelled points.
pub open spec fn is_score(points: Seq<(usize, Seq<char>)>, score: QualityScore) -> bool {
    if points.len() == 0 {
        score is Unlabelled
    } else {
        exists|counts: PairCounts| #[trigger]
            counts.counts(points) && score == (if counts.index_denominator() == 0 {
                QualityScore::Certain
            } else {
                QualityScore::Index(counts)
            })
    }
}

/// Computes the Adjusted Rand Index to measure embedding quality against ground-truth labels.
///
/// ARI = 1.0 means perfect match, 0.0 means random, <0 means worse than random.
pub fn embedding_quality_score(
    assignments: &[usize],
    labels: &HashMap<usize, String>,
    _k: usize,
) -> (score: QualityScore)
    ensures
        is_score(labelled_points(assignments@, label_texts(labels@)), score),
{
    let ghost texts = label_texts(labels@);
    let ghost mut points: Seq<(usize, Seq<char>)> = Seq::empty();
    let mut clusters: Vec<usize> = Vec::new();
    let mut label_ids: Vec<usize> = Vec::new();
    let mut label_to_id: StringHashMap<usize> = StringHashMap::new();
    let mut next_label_id: usize = 0;
    let mut i: usize = 0;
    assert(assignments@.take(0) =~= Seq::empty());
    assert(clusters@ =~= clusters_of(points));
    while i < assignments.len()
        invariant
            i <= assignments@.len(),
            texts == label_texts(labels@),
            points == labelled_points(assignments@.take(i as int), texts),
            clusters@ == clusters_of(points),
            label_ids@.len() == points.len(),
            next_label_id <= i,
            forall|text: Seq<char>| #[trigger]
                label_to_id@.contains_key(text) ==> label_to_id@[text] < next_label_id,
            forall|one: Seq<char>, two: Seq<char>|
                #![trigger label_to_id@[one], label_to_id@[two]]
                label_to_id@.contains_key(one) && label_to_id@.contains_key(two)
                    && label_to_id@[one] == label_to_id@[two] ==> one == two,
            forall|p: int|
                0 <= p < points.len() ==> label_to_id@.contains_key((#[trigger] points[p]).1)
                    && label_to_id@[points[p].1] == label_ids@[p],
        decreases assignments.len() - i,
    {
        proof {
            assert(assignments@.take(i + 1).drop_last() =~= assignments@.take(i as int));
            assert(texts.contains_key(i) == labels@.contains_key(i));
        }
        if let Some(label) = labels.get(&i) {
            let label_id: usize = match label_to_id.get(label.as_str()) {
                Some(id) => *id,
                None => {
                    let id: usize = next_label_id;
                    label_to_id.insert(label.clone(), id);
                    next_label_id = next_label_id + 1;
                    id
                },
            };
            clusters.push(assignments[i]);
            label_ids.push(label_id);
            proof {
                points = points.push((assignments@[i as int], label@));
                assert(clusters@ =~= clusters_of(points));
            }
        }
        i = i + 1;
    }
    assert(assignments@.take(i as int) =~= assignments@);
    if clusters.len() == 0 {
        return QualityScore::Unlabelled;
    }
    proof {
        assert(same_equalities(label_ids@, labels_of(points))) by {
            let names = labels_of(points);
            assert forall|p: int, q: int|
                #![trigger label_ids@[p], label_ids@[q]]
                #![trigger names[p], names[q]]
                0 <= p < names.len() && 0 <= q < names.len() implies (label_ids@[p]
                == label_ids@[q]) == (names[p] == names[q]) by {
                let one = points[p].1;
                let two = points[q].1;
                assert(label_to_id@[one] == label_ids@[p]);
                assert(label_to_id@[two] == label_ids@[q]);
            }
        }
    }
    let counts = count_pairs_of_points(&clusters, &label_ids, Ghost(points));
    assert(counts.counts(points));
    proof {
        lemma_equal_pairs_bound(clusters_of(points));
        lemma_equal_pairs_bound(labels_of(points));
        if counts.pairs > 0 {
            lemma_degenerate(
                counts.pairs as int,
                counts.same_cluster as int,
                counts.same_label as int,
            );
        }
    }
    if (counts.same_cluster == 0 && counts.same_label == 0) || (counts.same_cluster == counts.pairs
        && counts.same_label == counts.pairs) {
        QualityScore::Certain
    } else {
        QualityScore::Index(counts)
    }
}

/// The Adjusted Rand Index never exceeds one.
pub proof fn law_index_at_most_one(points: Seq<(usize, Seq<char>)>, counts: PairCounts)
    requires
        counts.counts(points),
    ensures
        counts.index_numerator() <= counts.index_denominator(),
        counts.index_denominator() >= 0,
{
    lemma_agreeing_bound(points);
    lemma_equal_pairs_bound(clusters_of(points));
    lemma_equal_pairs_bound(labels_of(points));
    let n = counts.pairs as int;
    let c = counts.agreeing as int;
    let a = counts.same_cluster as int;
    let b = counts.same_label as int;
    assert(2 * (n * c) <= n * (a + b)) by (nonlinear_arith)
        requires
            n >= 0,
            c <= a,
            c <= b,
    ;
    assert(2 * (n * c - a * b) == 2 * (n * c) - 2 * (a * b)) by (nonlinear_arith);
    if n > 0 {
        lemma_degenerate(n, a, b);
    }
}

/// The score is zero if as many pairs agree as are to be expected by chance, and below zero if and
/// only if fewer do.
pub proof fn law_sign_compares_with_chance(points: Seq<(usize, Seq<char>)>, counts: PairCounts)
    requires
        counts.counts(points),
        counts.index_denominator() > 0,
    ensures
        (counts.index_numerator() == 0) == (counts.pairs * counts.agreeing == counts.same_cluster
            * counts.same_label),
        (counts.index_numerator() < 0) == (counts.pairs * counts.agreeing < counts.same_cluster
            * counts.same_label),
{
}

/// The clusters match the labels: two points are in the same cluster if and only if they have the
/// same label.
pub open spec fn is_perfect_match(points: Seq<(usize, Seq<char>)>) -> bool {
    forall|p: int, q: int|
        #![trigger points[p], points[q]]
        0 <= p < points.len() && 0 <= q < points.len() ==> (points[p].0 == points[q].0) == (
        points[p].1 == points[q].1)
}

proof fn lemma_cells_fill_clusters(points: Seq<(usize, Seq<char>)>, point: (usize, Seq<char>))
    requires
        count_of(points, point) == count_of(clusters_of(points), point.0),
    ensures
        forall|p: int|
            0 <= p < points.len() && (#[trigger] points[p]).0 == point.0 ==> points[p].1
                == point.1,
    decreases points.len(),
{
    if points.len() > 0 {
        let init = points.drop_last();
        assert(clusters_of(points).drop_last() =~= clusters_of(init));
        lemma_cell_count_bound(init, point);
        lemma_cells_fill_clusters(init, point);
        assert forall|p: int|
            0 <= p < points.len() && (#[trigger] points[p]).0 == point.0 implies points[p].1
            == point.1 by {
            if p < init.len() {
                assert(init[p] == points[p]);
            }
        }
    }
}

proof fn lemma_cells_fill_labels(points: Seq<(usize, Seq<char>)>, point: (usize, Seq<char>))
    requires
        count_of(points, point) == count_of(labels_of(points), point.1),
    ensures
        forall|p: int|
            0 <= p < points.len() && (#[trigger] points[p]).1 == point.1 ==> points[p].0
                == point.0,
    decreases points.len(),
{
    if points.len() > 0 {
        let init = points.drop_last();
        assert(labels_of(points).drop_last() =~= labels_of(init));
        lemma_cell_count_bound(init, point);
        lemma_cells_fill_labels(init, point);
        assert forall|p: int|
            0 <= p < points.len() && (#[trigger] points[p]).1 == point.1 implies points[p].0
            == point.0 by {
            if p < init.len() {
                assert(init[p] == points[p]);
            }
        }
    }
}

proof fn lemma_full_agreement(points: Seq<(usize, Seq<char>)>)
    requires
        equal_pairs(points) == equal_pairs(clusters_of(points)),
        equal_pairs(points) == equal_pairs(labels_of(points)),
    ensures
        is_perfect_match(points),
    decreases points.len(),
{
    if points.len() > 0 {
        let init = points.drop_last();
        let last = points.last();
        assert(clusters_of(points).drop_last() =~= clusters_of(init));
        assert(labels_of(points).drop_last() =~= labels_of(init));
        lemma_agreeing_bound(init);
        lemma_cell_count_bound(init, last);
        lemma_full_agreement(init);
        lemma_cells_fill_clusters(init, last);
        lemma_cells_fill_labels(init, last);
        assert forall|p: int, q: int|
            #![trigger points[p], points[q]]
            0 <= p < points.len() && 0 <= q < points.len() implies (points[p].0 == points[q].0) == (
        points[p].1 == points[q].1) by {
            let k = init.len() as int;
            assert(p < k ==> init[p] == points[p]);
            assert(q < k ==> init[q] == points[q]);
        }
    }
}

/// Of labelled points, the score is one if and only if the clusters match the labels.
pub proof fn law_one_means_perfect_match(
    points: Seq<(usize, Seq<char>)>,
    counts: PairCounts,
    score: QualityScore,
)
    requires
        points.len() >= 1,
        counts.counts(points),
        is_score(points, score),
    ensures
        is_perfect_match(points) == (match score {
            QualityScore::Unlabelled => false,
            QualityScore::Certain => true,
            QualityScore::Index(counts) => counts.index_numerator() == counts.index_denominator(),
        }),
        (counts.index_numerator() == counts.index_denominator()) == is_perfect_match(points),
{
    lemma_equal_pairs_bound(clusters_of(points));
    lemma_equal_pairs_bound(labels_of(points));
    lemma_agreeing_bound(points);
    if points.len() == 1 {
        lemma_pairs_step(1);
        lemma_no_pairs();
        assert(0 * 0 == 0) by (nonlinear_arith);
    } else {
        lemma_perfect_match(points, counts);
    }
}

/// Two labelled points or more have the index one if and only if the clusters match the labels.
proof fn lemma_perfect_match(points: Seq<(usize, Seq<char>)>, counts: PairCounts)
    requires
        counts.counts(points),
        points.len() >= 2,
    ensures
        (counts.index_numerator() == counts.index_denominator()) == is_perfect_match(points),
        counts.index_denominator() == 0 ==> is_perfect_match(points),
{
    let n = counts.pairs as int;
    let c = counts.agreeing as int;
    let a = counts.same_cluster as int;
    let b = counts.same_label as int;
    lemma_pairs_step(2);
    lemma_pairs_step(1);
    lemma_pairs_monotone(2, points.len());
    lemma_no_pairs();
    lemma_agreeing_bound(points);
    lemma_equal_pairs_bound(clusters_of(points));
    lemma_equal_pairs_bound(labels_of(points));
    lemma_degenerate(n, a, b);
    law_index_at_most_one(points, counts);
    assert(2 * (n * c - a * b) == 2 * (n * c) - 2 * (a * b)) by (nonlinear_arith);
    if counts.index_numerator() == counts.index_denominator() {
        assert(2 * (n * c) == n * (a + b));
        assert(2 * c == a + b) by (nonlinear_arith)
            requires
                2 * (n * c) == n * (a + b),
                n > 0,
        ;
        lemma_full_agreement(points);
    }
    if is_perfect_match(points) {
        assert(same_equalities(points, clusters_of(points)));
        assert(same_equalities(points, labels_of(points)));
        law_names_do_not_matter(points, clusters_of(points));
        law_names_do_not_matter(points, labels_of(points));
        assert(2 * (n * c) == n * (a + b)) by (nonlinear_arith)
            requires
                a == c,
                b == c,
        ;
    }
    if counts.index_denominator() == 0 {
        if a == 0 {
            lemma_full_agreement(points);
        } else {
            lemma_all_equal(clusters_of(points));
            lemma_all_equal(labels_of(points));
            assert forall|p: int, q: int|
                #![trigger points[p], points[q]]
                0 <= p < points.len() && 0 <= q < points.len() implies (points[p].0
                == points[q].0) == (points[p].1 == points[q].1) by {
                assert(clusters_of(points)[p] == clusters_of(points)[q]);
                assert(labels_of(points)[p] == labels_of(points)[q]);
            }
        }
    }
}

proof fn lemma_full_count<T>(values: Seq<T>, value: T)
    requires
        count_of(values, value) == values.len(),
    ensures
        forall|p: int| 0 <= p < values.len() ==> #[trigger] values[p] == value,
    decreases values.len(),
{
    if values.len() > 0 {
        lemma_count_bound(values.drop_last(), value);
        lemma_full_count(values.drop_last(), value);
        assert forall|p: int| 0 <= p < values.len() implies #[trigger] values[p] == value by {
            if p < values.len() - 1 {
                assert(values.drop_last()[p] == values[p]);
            }
        }
    }
}

proof fn lemma_all_equal<T>(values: Seq<T>)
    requires
        equal_pairs(values) == pairs_of(values.len()),
    ensures
        forall|p: int, q: int|
            #![trigger values[p], values[q]]
            0 <= p < values.len() && 0 <= q < values.len() ==> values[p] == values[q],
{
    if values.len() > 0 {
        lemma_equal_pairs_bound(values.drop_last());
        lemma_count_bound(values.drop_last(), values.last());
        lemma_pairs_step(values.len());
        lemma_full_count(values.drop_last(), values.last());
        assert forall|p: int| 0 <= p < values.len() implies #[trigger] values[p]
            == values.last() by {
            if p < values.len() - 1 {
                assert(values.drop_last()[p] == values[p]);
            }
        }
    }
}

proof fn lemma_count_set<T>(values: Seq<T>, value: T, q: int)
    ensures
        Set::new(|e: (int, int)| 0 <= e.0 < values.len() && e.1 == q && values[e.0] == value).finite(),
        Set::new(|e: (int, int)| 0 <= e.0 < values.len() && e.1 == q && values[e.0] == value).len()
            == count_of(values, value),
    decreases values.len(),
{
    let found = Set::new(
        |e: (int, int)| 0 <= e.0 < values.len() && e.1 == q && values[e.0] == value,
    );
    if values.len() == 0 {
        assert(found =~= Set::empty());
    } else {
        let init = values.drop_last();
        let before = Set::new(
            |e: (int, int)| 0 <= e.0 < init.len() && e.1 == q && init[e.0] == value,
        );
        lemma_count_set(init, value, q);
        if values.last() == value {
            assert(found =~= before.insert((values.len() - 1, q)));
        } else {
            assert(found =~= before);
        }
    }
}

/// The number of equal pairs is the number of pairs of positions that hold equal values.
pub proof fn law_equal_pairs_counts_positions<T>(values: Seq<T>)
    ensures
        Set::new(|e: (int, int)| 0 <= e.0 < e.1 < values.len() && values[e.0] == values[e.1]).finite(),
        equal_pairs(values) == Set::new(
            |e: (int, int)| 0 <= e.0 < e.1 < values.len() && values[e.0] == values[e.1],
        ).len(),
    decreases values.len(),
{
    let found = Set::new(
        |e: (int, int)| 0 <= e.0 < e.1 < values.len() && values[e.0] == values[e.1],
    );
    if values.len() == 0 {
        assert(found =~= Set::empty());
    } else {
        let init = values.drop_last();
        let last = values.len() - 1;
        let value = values.last();
        let before = Set::new(
            |e: (int, int)| 0 <= e.0 < e.1 < init.len() && init[e.0] == init[e.1],
        );
        let added = Set::new(
            |e: (int, int)| 0 <= e.0 < init.len() && e.1 == last && init[e.0] == value,
        );
        law_equal_pairs_counts_positions(init);
        lemma_count_set(init, value, last);
        assert(found =~= before + added);
        assert(before.disjoint(added));
        lemma_set_disjoint_lens(before, added);
    }
}

proof fn lemma_pair_set(n: nat)
    ensures
        Set::new(|e: (int, int)| 0 <= e.0 < e.1 < n).finite(),
        Set::new(|e: (int, int)| 0 <= e.0 < e.1 < n).len() == pairs_of(n),
{
    let same = Seq::new(n, |i: int| 0int);
    law_equal_pairs_counts_positions(same);
    assert(Set::new(|e: (int, int)| 0 <= e.0 < e.1 < n) =~= Set::new(
        |e: (int, int)| 0 <= e.0 < e.1 < same.len() && same[e.0] == same[e.1],
    ));
    lemma_equal_pairs_of_same(n);
}

proof fn lemma_equal_pairs_of_same(n: nat)
    ensures
        equal_pairs(Seq::new(n, |i: int| 0int)) == pairs_of(n),
        count_of(Seq::new(n, |i: int| 0int), 0int) == n,
    decreases n,
{
    if n == 0 {
        lemma_no_pairs();
    } else {
        let init = Seq::new((n - 1) as nat, |i: int| 0int);
        lemma_equal_pairs_of_same((n - 1) as nat);
        lemma_pairs_step(n);
        assert(Seq::new(n, |i: int| 0int).drop_last() =~= init);
    }
}

/// The labelled points are the labelled vectors, each once, in order: `vectors` lists exactly the
/// vectors that have a label, and each point holds the cluster of its vector and the whole text of
/// its label.
pub proof fn law_points_are_the_labelled_vectors(
    assignments: Seq<usize>,
    labels: Map<usize, String>,
) -> (vectors: Seq<int>)
    requires
        assignments.len() <= usize::MAX,
    ensures
        vectors.len() == labelled_points(assignments, label_texts(labels)).len(),
        forall|p: int, q: int|
            #![trigger vectors[p], vectors[q]]
            0 <= p < q < vectors.len() ==> vectors[p] < vectors[q],
        forall|p: int|
            0 <= p < vectors.len() ==> {
                &&& 0 <= (#[trigger] vectors[p]) < assignments.len()
                &&& labels.contains_key(vectors[p] as usize)
                &&& labelled_points(assignments, label_texts(labels))[p].0
                    == assignments[vectors[p]]
                &&& labelled_points(assignments, label_texts(labels))[p].1
                    == labels[vectors[p] as usize]@
            },
        forall|i: int|
            0 <= i < assignments.len() && labels.contains_key(i as usize)
                ==> #[trigger] vectors.contains(i),
    decreases assignments.len(),
{
    if assignments.len() == 0 {
        Seq::empty()
    } else {
        let init = assignments.drop_last();
        let before = law_points_are_the_labelled_vectors(init, labels);
        let last = assignments.len() - 1;
        if labels.contains_key(last as usize) {
            let vectors = before.push(last);
            assert forall|i: int|
                0 <= i < assignments.len() && labels.contains_key(
                    i as usize,
                ) implies #[trigger] vectors.contains(i) by {
                if i < last {
                    assert(before.contains(i));
                    let p = choose|p: int| 0 <= p < before.len() && before[p] == i;
                    assert(vectors[p] == i);
                } else {
                    assert(vectors[before.len() as int] == i);
                }
            }
            vectors
        } else {
            assert forall|i: int|
                0 <= i < assignments.len() && labels.contains_key(
                    i as usize,
                ) implies #[trigger] before.contains(i) by {
                assert(i < last);
            }
            before
        }
    }
}

/// As many pairs of positions as pairs of vectors, if the vectors at the pairs of positions are the
/// pairs of vectors.
proof fn lemma_transfer(positions: Set<(int, int)>, pairs: Set<(int, int)>, vectors: Seq<int>)
    requires
        positions.finite(),
        forall|p: int, q: int|
            #![trigger vectors[p], vectors[q]]
            0 <= p < q < vectors.len() ==> vectors[p] < vectors[q],
        forall|e: (int, int)| #[trigger]
            positions.contains(e) ==> 0 <= e.0 < e.1 < vectors.len() && pairs.contains(
                (vectors[e.0], vectors[e.1]),
            ),
        forall|r: (int, int)| #[trigger]
            pairs.contains(r) ==> r.0 < r.1 && vectors.contains(r.0) && vectors.contains(r.1),
        forall|e: (int, int)|
            0 <= e.0 < e.1 < vectors.len() && pairs.contains((vectors[e.0], vectors[e.1]))
                ==> #[trigger] positions.contains(e),
    ensures
        positions.len() == pairs.len(),
{
    let f = |e: (int, int)| (vectors[e.0], vectors[e.1]);
    assert forall|r: (int, int)| pairs.contains(r) implies positions.map(f).contains(r) by {
        let p = choose|p: int| 0 <= p < vectors.len() && vectors[p] == r.0;
        let q = choose|q: int| 0 <= q < vectors.len() && vectors[q] == r.1;
        assert(p < q) by {
            if q < p {
                assert(vectors[q] < vectors[p]);
            }
        }
        assert(positions.contains((p, q)));
        assert(f((p, q)) == r);
    }
    assert(positions.map(f) =~= pairs);
    assert(injective_on(f, positions)) by {
        assert forall|x: (int, int), y: (int, int)|
            positions.contains(x) && positions.contains(y) && #[trigger] f(x) == #[trigger] f(
                y,
            ) implies x == y by {
            assert(vectors[x.0] == vectors[y.0]);
            assert(vectors[x.1] == vectors[y.1]);
        }
    }
    lemma_map_size(positions, pairs, f);
}

/// The counts are numbers of pairs of labelled vectors: all of them, those in the same cluster,
/// those whose labels are the same text, and those of which both holds.
pub proof fn law_counts_are_of_pairs_of_vectors(
    assignments: Seq<usize>,
    labels: Map<usize, String>,
    counts: PairCounts,
)
    requires
        assignments.len() <= usize::MAX,
        counts.counts(labelled_points(assignments, label_texts(labels))),
    ensures
        counts.pairs == Set::new(
            |e: (int, int)|
                0 <= e.0 < e.1 < assignments.len() && labels.contains_key(e.0 as usize)
                    && labels.contains_key(e.1 as usize),
        ).len(),
        counts.agreeing == Set::new(
            |e: (int, int)|
                0 <= e.0 < e.1 < assignments.len() && labels.contains_key(e.0 as usize)
                    && labels.contains_key(e.1 as usize) && assignments[e.0] == assignments[e.1]
                    && labels[e.0 as usize]@ == labels[e.1 as usize]@,
        ).len(),
        counts.same_cluster == Set::new(
            |e: (int, int)|
                0 <= e.0 < e.1 < assignments.len() && labels.contains_key(e.0 as usize)
                    && labels.contains_key(e.1 as usize) && assignments[e.0] == assignments[e.1],
        ).len(),
        counts.same_label == Set::new(
            |e: (int, int)|
                0 <= e.0 < e.1 < assignments.len() && labels.contains_key(e.0 as usize)
                    && labels.contains_key(e.1 as usize) && labels[e.0 as usize]@
                    == labels[e.1 as usize]@,
        ).len(),
{
    let points = labelled_points(assignments, label_texts(labels));
    let vectors = law_points_are_the_labelled_vectors(assignments, labels);
    let clusters = clusters_of(points);
    let names = labels_of(points);
    lemma_pair_set(points.len());
    law_equal_pairs_counts_positions(points);
    law_equal_pairs_counts_positions(clusters);
    law_equal_pairs_counts_positions(names);
    lemma_transfer(
        Set::new(|e: (int, int)| 0 <= e.0 < e.1 < points.len()),
        Set::new(
            |e: (int, int)|
                0 <= e.0 < e.1 < assignments.len() && labels.contains_key(e.0 as usize)
                    && labels.contains_key(e.1 as usize),
        ),
        vectors,
    );
    lemma_transfer(
        Set::new(|e: (int, int)| 0 <= e.0 < e.1 < points.len() && points[e.0] == points[e.1]),
        Set::new(
            |e: (int, int)|
                0 <= e.0 < e.1 < assignments.len() && labels.contains_key(e.0 as usize)
                    && labels.contains_key(e.1 as usize) && assignments[e.0] == assignments[e.1]
                    && labels[e.0 as usize]@ == labels[e.1 as usize]@,
        ),
        vectors,
    );
    lemma_transfer(
        Set::new(
            |e: (int, int)| 0 <= e.0 < e.1 < clusters.len() && clusters[e.0] == clusters[e.1],
        ),
        Set::new(
            |e: (int, int)|
                0 <= e.0 < e.1 < assignments.len() && labels.contains_key(e.0 as usize)
                    && labels.contains_key(e.1 as usize) && assignments[e.0] == assignments[e.1],
        ),
        vectors,
    );
    lemma_transfer(
        Set::new(|e: (int, int)| 0 <= e.0 < e.1 < names.len() && names[e.0] == names[e.1]),
        Set::new(
            |e: (int, int)|
                0 <= e.0 < e.1 < assignments.len() && labels.contains_key(e.0 as usize)
                    && labels.contains_key(e.1 as usize) && labels[e.0 as usize]@
                    == labels[e.1 as usize]@,
        ),
        vectors,
    );
}

/// There is no score without a labelled vector, and one otherwise. It is certain if and only if all
/// pairs of labelled vectors are in the same cluster and have the same label, or none is in the same
/// cluster and none has the same label; it is the index of the counts otherwise.
pub proof fn law_kind_of_score(
    assignments: Seq<usize>,
    labels: Map<usize, String>,
    score: QualityScore,
)
    requires
        assignments.len() <= usize::MAX,
        is_score(labelled_points(assignments, label_texts(labels)), score),
    ensures
        score is Unlabelled == !(exists|i: int|
            0 <= i < assignments.len() && #[trigger] labels.contains_key(i as usize)),
        score is Certain ==> {
            ||| forall|i: usize, j: usize|
                #![trigger labels.contains_key(i), labels.contains_key(j)]
                i < j < assignments.len() && labels.contains_key(i) && labels.contains_key(j)
                    ==> assignments[i as int] == assignments[j as int] && labels[i]@ == labels[j]@
            ||| forall|i: usize, j: usize|
                #![trigger labels.contains_key(i), labels.contains_key(j)]
                i < j < assignments.len() && labels.contains_key(i) && labels.contains_key(j)
                    ==> assignments[i as int] != assignments[j as int] && labels[i]@ != labels[j]@
        },
        score matches QualityScore::Index(counts) ==> {
            &&& counts.counts(labelled_points(assignments, label_texts(labels)))
            &&& counts.pairs > 0
            &&& 0 < counts.same_cluster || 0 < counts.same_label
            &&& counts.same_cluster < counts.pairs || counts.same_label < counts.pairs
        },
{
    let points = labelled_points(assignments, label_texts(labels));
    let vectors = law_points_are_the_labelled_vectors(assignments, labels);
    if points.len() == 0 {
        assert forall|i: int| 0 <= i < assignments.len() implies !#[trigger] labels.contains_key(
            i as usize,
        ) by {
            if labels.contains_key(i as usize) {
                assert(vectors.contains(i));
            }
        }
    } else {
        assert(labels.contains_key(vectors[0] as usize));
        let counts = choose|counts: PairCounts| #[trigger]
            counts.counts(points) && score == (if counts.index_denominator() == 0 {
                QualityScore::Certain
            } else {
                QualityScore::Index(counts)
            });
        let clusters = clusters_of(points);
        let names = labels_of(points);
        lemma_equal_pairs_bound(clusters);
        lemma_equal_pairs_bound(names);
        let n = counts.pairs as int;
        let a = counts.same_cluster as int;
        let b = counts.same_label as int;
        if n > 0 {
            lemma_degenerate(n, a, b);
        } else {
            assert(0 * 0 == 0) by (nonlinear_arith);
        }
        if score is Certain {
            if a == 0 && b == 0 {
                lemma_none_alike(assignments, labels);
            } else {
                lemma_all_alike(assignments, labels);
            }
        }
    }
}

proof fn lemma_positions(vectors: Seq<int>, i: int, j: int) -> (at: (int, int))
    requires
        vectors.contains(i),
        vectors.contains(j),
        i < j,
        forall|p: int, q: int|
            #![trigger vectors[p], vectors[q]]
            0 <= p < q < vectors.len() ==> vectors[p] < vectors[q],
    ensures
        0 <= at.0 < at.1 < vectors.len(),
        vectors[at.0] == i,
        vectors[at.1] == j,
{
    let p = choose|p: int| 0 <= p < vectors.len() && vectors[p] == i;
    let q = choose|q: int| 0 <= q < vectors.len() && vectors[q] == j;
    if q < p {
        assert(vectors[q] < vectors[p]);
    }
    (p, q)
}

proof fn lemma_none_alike(assignments: Seq<usize>, labels: Map<usize, String>)
    requires
        assignments.len() <= usize::MAX,
        equal_pairs(clusters_of(labelled_points(assignments, label_texts(labels)))) == 0,
        equal_pairs(labels_of(labelled_points(assignments, label_texts(labels)))) == 0,
    ensures
        forall|i: usize, j: usize|
            #![trigger labels.contains_key(i), labels.contains_key(j)]
            i < j < assignments.len() && labels.contains_key(i) && labels.contains_key(j)
                ==> assignments[i as int] != assignments[j as int] && labels[i]@ != labels[j]@,
{
    let points = labelled_points(assignments, label_texts(labels));
    let vectors = law_points_are_the_labelled_vectors(assignments, labels);
    let clusters = clusters_of(points);
    let names = labels_of(points);
    law_equal_pairs_counts_positions(clusters);
    law_equal_pairs_counts_positions(names);
    let alike_clusters = Set::new(
        |e: (int, int)| 0 <= e.0 < e.1 < clusters.len() && clusters[e.0] == clusters[e.1],
    );
    let alike_names = Set::new(
        |e: (int, int)| 0 <= e.0 < e.1 < names.len() && names[e.0] == names[e.1],
    );
    assert forall|i: usize, j: usize|
        #![trigger labels.contains_key(i), labels.contains_key(j)]
        i < j < assignments.len() && labels.contains_key(i) && labels.contains_key(
            j,
        ) implies assignments[i as int] != assignments[j as int] && labels[i]@ != labels[j]@ by {
        assert(vectors.contains(i as int) && vectors.contains(j as int));
        let at = lemma_positions(vectors, i as int, j as int);
        assert(!alike_clusters.contains(at));
        assert(!alike_names.contains(at));
    }
}

proof fn lemma_all_alike(assignments: Seq<usize>, labels: Map<usize, String>)
    requires
        assignments.len() <= usize::MAX,
        equal_pairs(clusters_of(labelled_points(assignments, label_texts(labels)))) == pairs_of(
            labelled_points(assignments, label_texts(labels)).len(),
        ),
        equal_pairs(labels_of(labelled_points(assignments, label_texts(labels)))) == pairs_of(
            labelled_points(assignments, label_texts(labels)).len(),
        ),
    ensures
        forall|i: usize, j: usize|
            #![trigger labels.contains_key(i), labels.contains_key(j)]
            i < j < assignments.len() && labels.contains_key(i) && labels.contains_key(j)
                ==> assignments[i as int] == assignments[j as int] && labels[i]@ == labels[j]@,
{
    let points = labelled_points(assignments, label_texts(labels));
    let vectors = law_points_are_the_labelled_vectors(assignments, labels);
    let clusters = clusters_of(points);
    let names = labels_of(points);
    lemma_all_equal(clusters);
    lemma_all_equal(names);
    assert forall|i: usize, j: usize|
        #![trigger labels.contains_key(i), labels.contains_key(j)]
        i < j < assignments.len() && labels.contains_key(i) && labels.contains_key(
            j,
        ) implies assignments[i as int] == assignments[j as int] && labels[i]@ == labels[j]@ by {
        assert(vectors.contains(i as int) && vectors.contains(j as int));
        let at = lemma_positions(vectors, i as int, j as int);
        assert(clusters[at.0] == clusters[at.1]);
        assert(names[at.0] == names[at.1]);
    }
}

/// Where some vector is labelled, the score is one if any two labelled vectors are in the same
/// cluster exactly if their labels are the same text, and below one otherwise. The score is
/// `(agreeing - expected) / (maximum - expected)`, with `expected` and `maximum` as
/// [`QualityScore::Index`] has them; it is written here times twice the number of pairs.
pub proof fn law_score_one_means_labels_match(
    assignments: Seq<usize>,
    labels: Map<usize, String>,
    score: QualityScore,
)
    requires
        assignments.len() <= usize::MAX,
        exists|i: int| 0 <= i < assignments.len() && #[trigger] labels.contains_key(i as usize),
        is_score(labelled_points(assignments, label_texts(labels)), score),
    ensures
        (forall|i: int, j: int|
            #![trigger labels[i as usize], labels[j as usize]]
            0 <= i < assignments.len() && 0 <= j < assignments.len() && labels.contains_key(
                i as usize,
            ) && labels.contains_key(j as usize) ==> (assignments[i] == assignments[j]) == (
            labels[i as usize]@ == labels[j as usize]@)) == (match score {
            QualityScore::Unlabelled => false,
            QualityScore::Certain => true,
            QualityScore::Index(c) => 2 * (c.pairs * c.agreeing - c.same_cluster * c.same_label)
                == c.pairs * (c.same_cluster + c.same_label) - 2 * (c.same_cluster * c.same_label),
        }),
        score matches QualityScore::Index(c) ==> 2 * (c.pairs * c.agreeing - c.same_cluster
            * c.same_label) <= c.pairs * (c.same_cluster + c.same_label) - 2 * (c.same_cluster
            * c.same_label),
        score matches QualityScore::Index(c) ==> c.pairs * (c.same_cluster + c.same_label) - 2 * (
        c.same_cluster * c.same_label) > 0,
{
    let points = labelled_points(assignments, label_texts(labels));
    let vectors = law_points_are_the_labelled_vectors(assignments, labels);
    let i = choose|i: int| 0 <= i < assignments.len() && #[trigger] labels.contains_key(i as usize);
    assert(vectors.contains(i));
    let counts = choose|counts: PairCounts| #[trigger]
        counts.counts(points) && score == (if counts.index_denominator() == 0 {
            QualityScore::Certain
        } else {
            QualityScore::Index(counts)
        });
    law_one_means_perfect_match(points, counts, score);
    law_index_at_most_one(points, counts);
    if is_perfect_match(points) {
        assert forall|i: int, j: int|
            #![trigger labels[i as usize], labels[j as usize]]
            0 <= i < assignments.len() && 0 <= j < assignments.len() && labels.contains_key(
                i as usize,
            ) && labels.contains_key(j as usize) implies (assignments[i] == assignments[j]) == (
        labels[i as usize]@ == labels[j as usize]@) by {
            assert(vectors.contains(i) && vectors.contains(j));
            let p = choose|p: int| 0 <= p < vectors.len() && vectors[p] == i;
            let q = choose|q: int| 0 <= q < vectors.len() && vectors[q] == j;
            assert((points[p].0 == points[q].0) == (points[p].1 == points[q].1));
        }
    } else {
        let (p, q) = choose|p: int, q: int|
            #![trigger points[p], points[q]]
            0 <= p < points.len() && 0 <= q < points.len() && (points[p].0 == points[q].0) != (
            points[p].1 == points[q].1);
        let i = vectors[p];
        let j = vectors[q];
        assert((assignments[i] == assignments[j]) != (labels[i as usize]@ == labels[j as usize]@));
    }
}

} // verus!
