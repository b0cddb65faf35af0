//! Conductance of a graph, estimated by a sweep along the Fiedler vector.

use vstd::prelude::*;
use vstd::relations::injective_on;
use vstd::set_lib::{lemma_map_size, lemma_set_disjoint_lens};

use crate::adjacency::{loopless, undirected, AdjacencyList};
use crate::clusters::{lemma_occurrences_bound, occurrences, total};
use crate::ordering::{
    all_numbers, law_numbers_are_sorted, law_stable_order_sorts, ranks, sort_numbers, stable_order,
    Binary64,
};
use crate::text::nested;

verus! {

/// A fraction.
#[derive(Debug, PartialEq, Eq, Clone, Copy)]
pub struct Ratio {
    pub numerator: usize,
    pub denominator: usize,
}

impl Ratio {
    /// Whether this is no more than the fraction of the two numbers.
    pub open spec fn at_most(self, numerator: nat, denominator: nat) -> bool {
        self.numerator * denominator <= numerator * self.denominator
    }
}

/// How many neighbors each node lists.
pub open spec fn degrees(adj: Seq<Seq<usize>>) -> Seq<nat> {
    adj.map_values(|list: Seq<usize>| list.len())
}

/// How many neighbors the nodes of a set list in all.
pub open spec fn volume(adj: Seq<Seq<usize>>, set: Seq<usize>) -> nat
    decreases set.len(),
{
    if set.len() == 0 {
        0
    } else {
        volume(adj, set.drop_last()) + adj[set.last() as int].len()
    }
}

/// How many entries of a list are not in a set.
pub open spec fn outside(list: Seq<usize>, set: Seq<usize>) -> nat
    decreases list.len(),
{
    if list.len() == 0 {
        0
    } else {
        outside(list.drop_last(), set) + (if set.contains(list.last()) {
            0nat
        } else {
            1nat
        })
    }
}

/// How many edges lead from some nodes out of the set `whole`.
pub open spec fn edges_out(adj: Seq<Seq<usize>>, nodes: Seq<usize>, whole: Seq<usize>) -> nat
    decreases nodes.len(),
{
    if nodes.len() == 0 {
        0
    } else {
        edges_out(adj, nodes.drop_last(), whole) + outside(adj[nodes.last() as int], whole)
    }
}

/// How many edges cross the cut between a set of nodes and the others: those that a node of the set
/// lists and that lead out of it.
pub open spec fn cut_size(adj: Seq<Seq<usize>>, set: Seq<usize>) -> nat {
    edges_out(adj, set, set)
}

/// The volume of a set of nodes or that of the others, whichever is less.
pub open spec fn lesser_volume(adj: Seq<Seq<usize>>, set: Seq<usize>) -> nat {
    let inside = volume(adj, set);
    let others = (total(degrees(adj)) - inside) as nat;
    if inside <= others {
        inside
    } else {
        others
    }
}

/// Whether the sweep looks at the cut behind the first `m` nodes: there are nodes on both sides, and
/// on neither is the volume zero.
pub open spec fn swept(adj: Seq<Seq<usize>>, order: Seq<usize>, m: int) -> bool {
    &&& 1 <= m < order.len()
    &&& lesser_volume(adj, order.take(m)) > 0
}

/// A fraction is the least conductance of the cuts that a sweep looks at: the number of edges that
/// cross a cut over its lesser volume. One is the most there can be.
pub open spec fn is_least_conductance(
    adj: Seq<Seq<usize>>,
    order: Seq<usize>,
    least: Ratio,
) -> bool {
    &&& least.denominator > 0
    &&& least.numerator <= least.denominator
    &&& forall|m: int| #[trigger]
        swept(adj, order, m) ==> least.at_most(
            cut_size(adj, order.take(m)),
            lesser_volume(adj, order.take(m)),
        )
    &&& {
        ||| least.numerator == 1 && least.denominator == 1
        ||| exists|m: int| #[trigger]
            swept(adj, order, m) && least.numerator == cut_size(adj, order.take(m))
                && least.denominator == lesser_volume(adj, order.take(m))
    }
}

/// Whether this is the conductance that a sweep along a vector finds. Without two nodes or without
/// edges it is zero.
pub open spec fn is_cheeger_constant(
    adj: Seq<Seq<usize>>,
    fiedler: Seq<Binary64>,
    constant: Ratio,
) -> bool {
    &&& adj.len() <= 1 || total(degrees(adj)) <= 1 ==> constant == (Ratio {
        numerator: 0,
        denominator: 1,
    })
    &&& adj.len() > 1 && total(degrees(adj)) > 1 ==> exists|order: Seq<usize>| #[trigger]
        stable_order(ranks(fiedler.take(adj.len() as int)), order) && is_least_conductance(
            adj,
            order,
            constant,
        )
}

/// Whether a sweep can be made: there is a number for each node to sort it by, the total volume can
/// be told, and the lists hold nodes only. A graph of one node, or without edges, needs less.
pub open spec fn sweepable(adj: Seq<Seq<usize>>, fiedler: Seq<Binary64>) -> bool {
    adj.len() <= 1 || {
        &&& adj.len() <= fiedler.len()
        &&& all_numbers(fiedler.take(adj.len() as int))
        &&& total(degrees(adj)) <= usize::MAX
        &&& total(degrees(adj)) <= 1 || forall|i: int, k: int|
            0 <= i < adj.len() && 0 <= k < adj[i].len() ==> (#[trigger] adj[i][k]) < adj.len()
    }
}

/// How many edges lead from a set of nodes to the node `x`.
spec fn edges_into(adj: Seq<Seq<usize>>, set: Seq<usize>, x: usize) -> nat
    decreases set.len(),
{
    if set.len() == 0 {
        0
    } else {
        edges_into(adj, set.drop_last(), x) + occurrences(adj[set.last() as int], x)
    }
}

proof fn lemma_outside_push(list: Seq<usize>, set: Seq<usize>, x: usize)
    requires
        !set.contains(x),
    ensures
        outside(list, set.push(x)) + occurrences(list, x) == outside(list, set),
    decreases list.len(),
{
    if list.len() > 0 {
        lemma_outside_push(list.drop_last(), set, x);
        let y = list.last();
        let larger = set.push(x);
        assert(larger[set.len() as int] == x);
        if set.contains(y) {
            let p = choose|p: int| 0 <= p < set.len() && set[p] == y;
            assert(larger[p] == y);
        }
        if larger.contains(y) && y != x {
            let p = choose|p: int| 0 <= p < larger.len() && larger[p] == y;
            assert(set[p] == y);
        }
    }
}

proof fn lemma_edges_out_push(
    adj: Seq<Seq<usize>>,
    nodes: Seq<usize>,
    set: Seq<usize>,
    x: usize,
)
    requires
        !set.contains(x),
    ensures
        edges_out(adj, nodes, set.push(x)) + edges_into(adj, nodes, x) == edges_out(
            adj,
            nodes,
            set,
        ),
    decreases nodes.len(),
{
    if nodes.len() > 0 {
        lemma_edges_out_push(adj, nodes.drop_last(), set, x);
        lemma_outside_push(adj[nodes.last() as int], set, x);
    }
}

/// When a node joins a set, the edges that led to it no longer cross, and those that lead from it
/// out of the set do.
proof fn lemma_cut_push(adj: Seq<Seq<usize>>, set: Seq<usize>, x: usize)
    requires
        !set.contains(x),
    ensures
        cut_size(adj, set.push(x)) + edges_into(adj, set, x) == cut_size(adj, set) + outside(
            adj[x as int],
            set.push(x),
        ),
{
    lemma_edges_out_push(adj, set, set, x);
    assert(set.push(x).drop_last() =~= set);
}

proof fn lemma_outside_bound(list: Seq<usize>, set: Seq<usize>)
    ensures
        outside(list, set) <= list.len(),
    decreases list.len(),
{
    if list.len() > 0 {
        lemma_outside_bound(list.drop_last(), set);
    }
}

proof fn lemma_edges_out_bound(adj: Seq<Seq<usize>>, nodes: Seq<usize>, set: Seq<usize>)
    ensures
        edges_out(adj, nodes, set) <= volume(adj, nodes),
    decreases nodes.len(),
{
    if nodes.len() > 0 {
        lemma_edges_out_bound(adj, nodes.drop_last(), set);
        lemma_outside_bound(adj[nodes.last() as int], set);
    }
}

proof fn lemma_edges_into_bound(adj: Seq<Seq<usize>>, set: Seq<usize>, x: usize)
    ensures
        edges_into(adj, set, x) <= volume(adj, set),
    decreases set.len(),
{
    if set.len() > 0 {
        lemma_edges_into_bound(adj, set.drop_last(), x);
        lemma_occurrences_bound(adj[set.last() as int], x);
    }
}

proof fn lemma_prefix_volume(adj: Seq<Seq<usize>>, order: Seq<usize>, m: int)
    requires
        0 <= m <= order.len(),
    ensures
        volume(adj, order.take(m)) <= volume(adj, order),
    decreases order.len() - m,
{
    if m == order.len() {
        assert(order.take(m) =~= order);
    } else {
        lemma_prefix_volume(adj, order, m + 1);
        assert(order.take(m + 1).drop_last() =~= order.take(m));
    }
}

proof fn lemma_volume_remove(adj: Seq<Seq<usize>>, set: Seq<usize>, p: int)
    requires
        0 <= p < set.len(),
    ensures
        volume(adj, set) == volume(adj, set.remove(p)) + adj[set[p] as int].len(),
    decreases set.len(),
{
    if p == set.len() - 1 {
        assert(set.remove(p) =~= set.drop_last());
    } else {
        lemma_volume_remove(adj, set.drop_last(), p);
        assert(set.remove(p).drop_last() =~= set.drop_last().remove(p));
        assert(set.remove(p).last() == set.last());
    }
}

/// The nodes below `n`, each once, list as many neighbors as their degrees add up to.
proof fn lemma_whole_volume(adj: Seq<Seq<usize>>, set: Seq<usize>, n: nat)
    requires
        n <= adj.len() <= usize::MAX,
        set.len() == n,
        set.no_duplicates(),
        forall|p: int| 0 <= p < set.len() ==> (#[trigger] set[p]) < n,
        forall|x: usize| x < n ==> #[trigger] set.contains(x),
    ensures
        volume(adj, set) == total(degrees(adj.take(n as int))),
    decreases n,
{
    if n > 0 {
        let last = (n - 1) as usize;
        assert(set.contains(last));
        let p = choose|p: int| 0 <= p < set.len() && set[p] == last;
        let rest = set.remove(p);
        lemma_volume_remove(adj, set, p);
        assert(rest.no_duplicates());
        assert forall|q: int| 0 <= q < rest.len() implies (#[trigger] rest[q]) < n - 1 by {
            let s = if q < p {
                q
            } else {
                q + 1
            };
            assert(rest[q] == set[s]);
            assert(set[s] != set[p]);
        }
        assert forall|x: usize| x < n - 1 implies #[trigger] rest.contains(x) by {
            assert(set.contains(x));
            let q = choose|q: int| 0 <= q < set.len() && set[q] == x;
            if q < p {
                assert(rest[q] == x);
            } else {
                assert(rest[q - 1] == x);
            }
        }
        lemma_whole_volume(adj, rest, (n - 1) as nat);
        let now = degrees(adj.take(n as int));
        assert(now.drop_last() =~= degrees(adj.take(n - 1)));
        assert(now.last() == adj[last as int].len());
    }
}

proof fn lemma_degrees_prefix(adj: Seq<Seq<usize>>, m: int)
    requires
        0 <= m <= adj.len(),
    ensures
        total(degrees(adj.take(m))) <= total(degrees(adj)),
    decreases adj.len() - m,
{
    if m == adj.len() {
        assert(adj.take(m) =~= adj);
    } else {
        lemma_degrees_prefix(adj, m + 1);
        let now = degrees(adj.take(m + 1));
        assert(now.drop_last() =~= degrees(adj.take(m)));
    }
}

/// The total volume of a graph.
fn total_volume(adj: &AdjacencyList) -> (sum: usize)
    requires
        total(degrees(nested(adj@))) <= usize::MAX,
    ensures
        sum == total(degrees(nested(adj@))),
{
    let ghost lists = nested(adj@);
    let mut sum: usize = 0;
    let mut i: usize = 0;
    assert(degrees(lists.take(0)) =~= Seq::empty());
    while i < adj.len()
        invariant
            i <= adj@.len(),
            lists == nested(adj@),
            total(degrees(lists)) <= usize::MAX,
            sum == total(degrees(lists.take(i as int))),
        decreases adj.len() - i,
    {
        proof {
            lemma_degrees_prefix(lists, i + 1);
            assert(degrees(lists.take(i + 1)).drop_last() =~= degrees(lists.take(i as int)));
            assert(degrees(lists.take(i + 1)).last() == adj@[i as int]@.len());
        }
        sum = sum + adj[i].len();
        i = i + 1;
    }
    assert(lists.take(i as int) =~= lists);
    sum
}

/// Tells whether [`cheeger_constant`] can be computed.
pub fn check_sweepable(adj: &AdjacencyList, fiedler: &Vec<Binary64>) -> (answer: bool)
    ensures
        answer == sweepable(nested(adj@), fiedler@),
{
    let ghost lists = nested(adj@);
    let n: usize = adj.len();
    if n <= 1 {
        return true;
    }
    if fiedler.len() < n {
        return false;
    }
    let mut i: usize = 0;
    while i < n
        invariant
            i <= n,
            n <= fiedler@.len(),
            lists == nested(adj@),
            n == lists.len(),
            n > 1,
            forall|p: int| 0 <= p < i ==> !(#[trigger] fiedler@.take(n as int)[p]).nan(),
        decreases n - i,
    {
        assert(fiedler@.take(n as int)[i as int] == fiedler@[i as int]);
        if fiedler[i].is_nan() {
            return false;
        }
        i = i + 1;
    }
    let mut sum: usize = 0;
    let mut i: usize = 0;
    assert(degrees(lists.take(0)) =~= Seq::empty());
    while i < n
        invariant
            i <= n,
            n == adj@.len(),
            n > 1,
            lists == nested(adj@),
            sum == total(degrees(lists.take(i as int))),
        decreases n - i,
    {
        proof {
            lemma_degrees_prefix(lists, i + 1);
            assert(degrees(lists.take(i + 1)).drop_last() =~= degrees(lists.take(i as int)));
            assert(degrees(lists.take(i + 1)).last() == adj@[i as int]@.len());
        }
        if adj[i].len() > usize::MAX - sum {
            return false;
        }
        sum = sum + adj[i].len();
        i = i + 1;
    }
    assert(lists.take(n as int) =~= lists);
    if sum <= 1 {
        return true;
    }
    let mut i: usize = 0;
    while i < n
        invariant
            i <= n,
            n == adj@.len(),
            n > 1,
            n <= fiedler@.len(),
            lists == nested(adj@),
            sum == total(degrees(lists)),
            sum > 1,
            forall|p: int, k: int|
                0 <= p < i && 0 <= k < lists[p].len() ==> (#[trigger] lists[p][k]) < n,
        decreases n - i,
    {
        assert(lists[i as int] == adj@[i as int]@);
        let mut k: usize = 0;
        while k < adj[i].len()
            invariant
                i < n,
                n == adj@.len(),
                n > 1,
                n <= fiedler@.len(),
                lists == nested(adj@),
                lists[i as int] == adj@[i as int]@,
                sum == total(degrees(lists)),
                sum > 1,
                k <= adj@[i as int]@.len(),
                forall|q: int| 0 <= q < k ==> (#[trigger] lists[i as int][q]) < n,
            decreases adj@[i as int]@.len() - k,
        {
            if adj[i][k] >= n {
                assert(lists[i as int][k as int] >= n);
                return false;
            }
            k = k + 1;
        }
        i = i + 1;
    }
    true
}

/// Multiplication of two numbers stays within twice their width.
proof fn lemma_product_fits(a: usize, b: usize)
    ensures
        a as u128 * b as u128 <= u128::MAX,
        a as u128 * b as u128 == a * b,
{
    assert(a as u128 * b as u128 <= u128::MAX) by (nonlinear_arith)
        requires
            a as u128 <= 0xffff_ffff_ffff_ffff,
            b as u128 <= 0xffff_ffff_ffff_ffff,
    ;
}

/// Estimates the Cheeger constant (graph conductance) using the Fiedler vector.
///
/// Sorts nodes by Fiedler vector values and finds the cut with minimum conductance.
pub fn cheeger_constant(adj: &AdjacencyList, fiedler: &Vec<Binary64>) -> (constant: Ratio)
    requires
        sweepable(nested(adj@), fiedler@),
    ensures
        is_cheeger_constant(nested(adj@), fiedler@, constant),
{
    let ghost lists = nested(adj@);
    let n: usize = adj.len();
    if n <= 1 {
        return Ratio { numerator: 0, denominator: 1 };
    }
    let mut values: Vec<Binary64> = Vec::new();
    let mut i: usize = 0;
    while i < n
        invariant
            i <= n <= fiedler@.len(),
            values@ == fiedler@.take(i as int),
        decreases n - i,
    {
        values.push(fiedler[i]);
        i = i + 1;
        assert(values@ =~= fiedler@.take(i as int));
    }
    let indices = sort_numbers(&values);
    let ghost order = indices@;
    assert(order.no_duplicates());

    let whole: usize = total_volume(adj);
    if whole <= 1 {
        return Ratio { numerator: 0, denominator: 1 };
    }
    proof {
        lemma_whole_volume(lists, order, n as nat);
        assert(lists.take(n as int) =~= lists);
    }

    let mut least = Ratio { numerator: 1, denominator: 1 };
    let mut cut_edges: usize = 0;
    let mut volume_s: usize = 0;
    // Which nodes are in front of the cut, and how many edges lead to each node from there.
    let mut in_s: Vec<bool> = Vec::new();
    let mut edges_from_s: Vec<usize> = Vec::new();
    let mut i: usize = 0;
    while i < n
        invariant
            i <= n,
            in_s@.len() == i,
            edges_from_s@.len() == i,
            forall|v: int| 0 <= v < i ==> !(#[trigger] in_s@[v]),
            forall|v: int| 0 <= v < i ==> #[trigger] edges_from_s@[v] == 0,
        decreases n - i,
    {
        in_s.push(false);
        edges_from_s.push(0);
        i = i + 1;
    }
    assert(order.take(0) =~= Seq::empty());

    let mut step: usize = 0;
    while step < n
        invariant
            step <= n,
            n > 1,
            n == adj@.len(),
            lists == nested(adj@),
            order == indices@,
            order.len() == n,
            order.no_duplicates(),
            forall|p: int| 0 <= p < n ==> (#[trigger] order[p]) < n,
            forall|i: int, k: int|
                0 <= i < lists.len() && 0 <= k < lists[i].len() ==> (#[trigger] lists[i][k]) < n,
            whole == total(degrees(lists)),
            volume(lists, order) == whole,
            in_s@.len() == n,
            edges_from_s@.len() == n,
            forall|v: int|
                0 <= v < n ==> #[trigger] in_s@[v] == order.take(step as int).contains(v as usize),
            forall|v: int|
                0 <= v < n ==> #[trigger] edges_from_s@[v] == edges_into(
                    lists,
                    order.take(step as int),
                    v as usize,
                ),
            cut_edges == cut_size(lists, order.take(step as int)),
            volume_s == volume(lists, order.take(step as int)),
            least.denominator > 0,
            least.numerator <= least.denominator,
            forall|m: int|
                m <= step && #[trigger] swept(lists, order, m) ==> least.at_most(
                    cut_size(lists, order.take(m)),
                    lesser_volume(lists, order.take(m)),
                ),
            (least.numerator == 1 && least.denominator == 1) || exists|m: int| #[trigger]
                swept(lists, order, m) && least.numerator == cut_size(lists, order.take(m))
                    && least.denominator == lesser_volume(lists, order.take(m)),
        decreases n - step,
    {
        let node: usize = indices[step];
        let ghost before = order.take(step as int);
        let ghost after = order.take(step + 1);
        proof {
            assert(after =~= before.push(node));
            assert(after.drop_last() =~= before);
            if before.contains(node) {
                let p = choose|p: int| 0 <= p < before.len() && before[p] == node;
                assert(order[p] == order[step as int]);
            }
            lemma_cut_push(lists, before, node);
            lemma_prefix_volume(lists, order, step + 1);
            lemma_edges_out_bound(lists, before, before);
            lemma_edges_out_bound(lists, before, after);
            lemma_edges_out_push(lists, before, before, node);
            assert(lists[node as int] == adj@[node as int]@);
            assert forall|v: int| 0 <= v < n implies (#[trigger] in_s@.update(node as int, true)[v])
                == after.contains(v as usize) by {
                if before.contains(v as usize) {
                    let p = choose|p: int| 0 <= p < before.len() && before[p] == v as usize;
                    assert(after[p] == v as usize);
                }
                if after.contains(v as usize) && v != node {
                    let p = choose|p: int| 0 <= p < after.len() && after[p] == v as usize;
                    assert(before[p] == v as usize);
                }
                assert(after[step as int] == node);
            }
        }
        in_s[node] = true;
        volume_s = volume_s + adj[node].len();
        cut_edges = cut_edges - edges_from_s[node];
        let ghost list = adj@[node as int]@;
        let ghost entries = edges_from_s@;
        let mut k: usize = 0;
        assert(list.take(0) =~= Seq::empty());
        assert(outside(list.take(0), after) == 0);
        while k < adj[node].len()
            invariant
                node < n,
                n == adj@.len(),
                list == adj@[node as int]@,
                lists[node as int] == list,
                k <= list.len(),
                in_s@.len() == n,
                edges_from_s@.len() == n,
                entries.len() == n,
                forall|i: int, k: int|
                    0 <= i < lists.len() && 0 <= k < lists[i].len() ==> (#[trigger] lists[i][k])
                        < n,
                lists.len() == n,
                forall|v: int| 0 <= v < n ==> #[trigger] in_s@[v] == after.contains(v as usize),
                forall|v: int|
                    0 <= v < n ==> #[trigger] edges_from_s@[v] == entries[v] + occurrences(
                        list.take(k as int),
                        v as usize,
                    ),
                forall|v: int|
                    0 <= v < n ==> #[trigger] entries[v] == edges_into(lists, before, v as usize),
                cut_edges == edges_out(lists, before, after) + outside(list.take(k as int), after),
                volume(lists, before) + list.len() <= usize::MAX,
                edges_out(lists, before, after) <= volume(lists, before),
            decreases list.len() - k,
        {
            let neighbor: usize = adj[node][k];
            assert(lists[node as int][k as int] == neighbor);
            proof {
                let now = list.take(k + 1);
                assert(now.drop_last() =~= list.take(k as int));
                assert(now.last() == neighbor);
                lemma_outside_bound(list.take(k as int), after);
                lemma_occurrences_bound(list.take(k as int), neighbor);
                lemma_edges_into_bound(lists, before, neighbor);
            }
            if !in_s[neighbor] {
                cut_edges = cut_edges + 1;
            }
            edges_from_s[neighbor] = edges_from_s[neighbor] + 1;
            k = k + 1;
        }
        proof {
            assert(list.take(k as int) =~= list);
            assert forall|v: int| 0 <= v < n implies #[trigger] edges_from_s@[v] == edges_into(
                lists,
                after,
                v as usize,
            ) by {}
        }
        let others: usize = whole - volume_s;
        let min_volume: usize = if volume_s <= others {
            volume_s
        } else {
            others
        };
        assert(min_volume == lesser_volume(lists, after));
        assert(cut_edges == cut_size(lists, after));
        let ghost was = least;
        if min_volume > 0 && step < n - 1 {
            assert(swept(lists, order, step + 1));
            proof {
                lemma_product_fits(cut_edges, least.denominator);
                lemma_product_fits(least.numerator, min_volume);
            }
            if (cut_edges as u128) * (least.denominator as u128) < (least.numerator as u128) * (
            min_volume as u128) {
                assert(cut_edges < min_volume) by (nonlinear_arith)
                    requires
                        cut_edges * was.denominator < was.numerator * min_volume,
                        was.numerator <= was.denominator,
                ;
                least = Ratio { numerator: cut_edges, denominator: min_volume };
                assert forall|m: int|
                    m <= step && #[trigger] swept(lists, order, m) implies least.at_most(
                    cut_size(lists, order.take(m)),
                    lesser_volume(lists, order.take(m)),
                ) by {
                    let c = cut_size(lists, order.take(m));
                    let v = lesser_volume(lists, order.take(m));
                    assert(was.at_most(c, v));
                    assert(cut_edges * v <= c * min_volume) by (nonlinear_arith)
                        requires
                            was.numerator * v <= c * was.denominator,
                            cut_edges * was.denominator < was.numerator * min_volume,
                            was.denominator > 0,
                            min_volume > 0,
                            v >= 0,
                            c >= 0,
                    ;
                }
            }
        }
        step = step + 1;
    }
    assert(is_least_conductance(lists, order, least));
    least
}

/// A graph that a cut of the sweep takes apart without crossing an edge has conductance zero.
pub proof fn law_separated_graph(
    adj: Seq<Seq<usize>>,
    order: Seq<usize>,
    least: Ratio,
    m: int,
)
    requires
        is_least_conductance(adj, order, least),
        swept(adj, order, m),
        cut_size(adj, order.take(m)) == 0,
    ensures
        least.numerator == 0,
{
    let v = lesser_volume(adj, order.take(m));
    assert(least.at_most(0, v));
    assert(least.numerator == 0) by (nonlinear_arith)
        requires
            least.numerator * v <= 0 * least.denominator,
            v > 0,
            least.numerator >= 0,
    ;
}

/// Where the first node does not list itself, the cut behind it has conductance at least one.
pub proof fn law_first_cut(adj: Seq<Seq<usize>>, order: Seq<usize>)
    requires
        order.len() > 0,
        !adj[order[0] as int].contains(order[0]),
    ensures
        cut_size(adj, order.take(1)) >= lesser_volume(adj, order.take(1)),
{
    let set = order.take(1);
    let list = adj[order[0] as int];
    assert(set.drop_last() =~= Seq::empty());
    assert(set.last() == order[0]);
    lemma_all_outside(list, set);
    assert(volume(adj, set) == volume(adj, set.drop_last()) + list.len());
    assert(edges_out(adj, set, set) == edges_out(adj, set.drop_last(), set) + outside(list, set));
}

proof fn lemma_all_outside(list: Seq<usize>, set: Seq<usize>)
    requires
        forall|p: int| 0 <= p < list.len() ==> !set.contains(#[trigger] list[p]),
    ensures
        outside(list, set) == list.len(),
    decreases list.len(),
{
    if list.len() > 0 {
        assert(list[list.len() - 1] == list.last());
        assert forall|p: int| 0 <= p < list.len() - 1 implies !set.contains(
            #[trigger] list.drop_last()[p],
        ) by {
            assert(list.drop_last()[p] == list[p]);
        }
        lemma_all_outside(list.drop_last(), set);
    }
}

/// There is only one least conductance: two fractions that are the least are equal.
pub proof fn law_least_conductance_unique(
    adj: Seq<Seq<usize>>,
    order: Seq<usize>,
    left: Ratio,
    right: Ratio,
)
    requires
        is_least_conductance(adj, order, left),
        is_least_conductance(adj, order, right),
    ensures
        left.numerator * right.denominator == right.numerator * left.denominator,
{
    lemma_least_bounds(adj, order, left, right);
    lemma_least_bounds(adj, order, right, left);
}

proof fn lemma_least_bounds(
    adj: Seq<Seq<usize>>,
    order: Seq<usize>,
    left: Ratio,
    right: Ratio,
)
    requires
        is_least_conductance(adj, order, left),
        is_least_conductance(adj, order, right),
    ensures
        left.numerator * right.denominator <= right.numerator * left.denominator,
{
    if !(right.numerator == 1 && right.denominator == 1) {
        let m = choose|m: int| #[trigger]
            swept(adj, order, m) && right.numerator == cut_size(adj, order.take(m))
                && right.denominator == lesser_volume(adj, order.take(m));
        assert(left.at_most(cut_size(adj, order.take(m)), lesser_volume(adj, order.take(m))));
    }
}

/// The entries of a list that are in a set, each node of the set taken in turn.
spec fn hits(list: Seq<usize>, set: Seq<usize>) -> nat
    decreases set.len(),
{
    if set.len() == 0 {
        0
    } else {
        hits(list, set.drop_last()) + occurrences(list, set.last())
    }
}

proof fn lemma_outside_nothing(list: Seq<usize>)
    ensures
        outside(list, Seq::empty()) == list.len(),
    decreases list.len(),
{
    if list.len() > 0 {
        lemma_outside_nothing(list.drop_last());
    }
}

/// Each entry of a list is in a set or outside.
proof fn lemma_hits(list: Seq<usize>, set: Seq<usize>)
    requires
        set.no_duplicates(),
    ensures
        outside(list, set) + hits(list, set) == list.len(),
    decreases set.len(),
{
    if set.len() == 0 {
        assert(set =~= Seq::empty());
        lemma_outside_nothing(list);
    } else {
        let init = set.drop_last();
        let x = set.last();
        lemma_hits(list, init);
        assert(!init.contains(x)) by {
            if init.contains(x) {
                let p = choose|p: int| 0 <= p < init.len() && init[p] == x;
                assert(set[p] == set[set.len() - 1]);
            }
        }
        lemma_outside_push(list, init, x);
        assert(init.push(x) =~= set);
    }
}

proof fn lemma_no_outside(list: Seq<usize>, set: Seq<usize>)
    requires
        forall|p: int| 0 <= p < list.len() ==> set.contains(#[trigger] list[p]),
    ensures
        outside(list, set) == 0,
    decreases list.len(),
{
    if list.len() > 0 {
        assert(list[list.len() - 1] == list.last());
        assert forall|p: int| 0 <= p < list.len() - 1 implies set.contains(
            #[trigger] list.drop_last()[p],
        ) by {
            assert(list.drop_last()[p] == list[p]);
        }
        lemma_no_outside(list.drop_last(), set);
    }
}

proof fn lemma_occurs_once(list: Seq<usize>, x: usize)
    requires
        list.no_duplicates(),
    ensures
        occurrences(list, x) == (if list.contains(x) {
            1nat
        } else {
            0nat
        }),
    decreases list.len(),
{
    if list.len() > 0 {
        let init = list.drop_last();
        lemma_occurs_once(init, x);
        assert(list[list.len() - 1] == list.last());
        if init.contains(x) {
            let p = choose|p: int| 0 <= p < init.len() && init[p] == x;
            assert(list[p] == x);
        }
        if list.contains(x) && list.last() != x {
            let p = choose|p: int| 0 <= p < list.len() && list[p] == x;
            assert(init[p] == x);
        }
    }
}

/// In an undirected graph, as many edges lead from a set to a node as back.
proof fn lemma_edges_into_hits(adj: Seq<Seq<usize>>, set: Seq<usize>, x: usize)
    requires
        undirected(adj),
        x < adj.len(),
        forall|p: int| 0 <= p < set.len() ==> (#[trigger] set[p]) < adj.len(),
    ensures
        edges_into(adj, set, x) == hits(adj[x as int], set),
    decreases set.len(),
{
    if set.len() > 0 {
        let init = set.drop_last();
        let y = set.last();
        assert(set[set.len() - 1] == y);
        assert forall|p: int| 0 <= p < init.len() implies (#[trigger] init[p]) < adj.len() by {
            assert(init[p] == set[p]);
        }
        lemma_edges_into_hits(adj, init, x);
        assert(adj[y as int].contains((x as int) as usize) == adj[x as int].contains(
            (y as int) as usize,
        ));
        assert(adj[x as int].no_duplicates());
        assert(adj[y as int].no_duplicates());
        lemma_occurs_once(adj[y as int], x);
        lemma_occurs_once(adj[x as int], y);
    }
}

/// The nodes in order, each once.
spec fn is_arrangement(order: Seq<usize>, n: nat) -> bool {
    &&& order.len() == n
    &&& order.no_duplicates()
    &&& forall|p: int| 0 <= p < order.len() ==> (#[trigger] order[p]) < n
    &&& forall|x: usize| x < n ==> #[trigger] order.contains(x)
}

/// In an undirected graph, no more edges lead out of the first `w` nodes than the others list.
proof fn lemma_cut_fits_others(adj: Seq<Seq<usize>>, order: Seq<usize>, m: int, w: int)
    requires
        adj.len() <= usize::MAX,
        undirected(adj),
        is_arrangement(order, adj.len()),
        0 <= m <= w <= order.len(),
    ensures
        edges_out(adj, order.take(m), order.take(w)) + volume(adj, order.take(w)) <= volume(
            adj,
            order,
        ),
    decreases order.len() - w,
{
    let set = order.take(m);
    if w == order.len() {
        assert(order.take(w) =~= order);
        lemma_no_edges_out(adj, set, order);
    } else {
        lemma_cut_fits_others(adj, order, m, w + 1);
        let x = order[w];
        assert(order.take(w + 1) =~= order.take(w).push(x));
        assert(order.take(w + 1).drop_last() =~= order.take(w));
        assert(!order.take(w).contains(x)) by {
            if order.take(w).contains(x) {
                let p = choose|p: int| 0 <= p < w && order.take(w)[p] == x;
                assert(order[p] == order[w]);
            }
        }
        lemma_edges_out_push(adj, set, order.take(w), x);
        assert(set.no_duplicates());
        assert forall|p: int| 0 <= p < set.len() implies (#[trigger] set[p]) < adj.len() by {
            assert(set[p] == order[p]);
        }
        lemma_edges_into_hits(adj, set, x);
        lemma_hits(adj[x as int], set);
    }
}

proof fn lemma_no_edges_out(adj: Seq<Seq<usize>>, nodes: Seq<usize>, order: Seq<usize>)
    requires
        adj.len() <= usize::MAX,
        undirected(adj),
        is_arrangement(order, adj.len()),
        forall|p: int| 0 <= p < nodes.len() ==> (#[trigger] nodes[p]) < adj.len(),
    ensures
        edges_out(adj, nodes, order) == 0,
    decreases nodes.len(),
{
    if nodes.len() > 0 {
        let init = nodes.drop_last();
        let x = nodes.last();
        assert(nodes[nodes.len() - 1] == x);
        assert forall|p: int| 0 <= p < init.len() implies (#[trigger] init[p]) < adj.len() by {
            assert(init[p] == nodes[p]);
        }
        lemma_no_edges_out(adj, init, order);
        let list = adj[x as int];
        assert forall|p: int| 0 <= p < list.len() implies order.contains(#[trigger] list[p]) by {
            assert(adj[x as int][p] < adj.len());
        }
        lemma_no_outside(list, order);
    }
}

/// A node and one behind it, both with neighbors, have a swept cut between them.
proof fn lemma_swept_between(adj: Seq<Seq<usize>>, order: Seq<usize>, p: int, q: int)
    requires
        0 <= p < q < order.len(),
        volume(adj, order) == total(degrees(adj)),
        adj[order[p] as int].len() > 0,
        adj[order[q] as int].len() > 0,
    ensures
        swept(adj, order, p + 1),
{
    assert(order.take(p + 1).drop_last() =~= order.take(p));
    assert(order.take(q + 1).drop_last() =~= order.take(q));
    lemma_prefix_volume(adj, order, q + 1);
    lemma_prefix_volume(adj, order.take(q), p + 1);
    assert(order.take(q).take(p + 1) =~= order.take(p + 1));
}

proof fn lemma_some_degree(adj: Seq<Seq<usize>>)
    requires
        total(degrees(adj)) > 0,
    ensures
        exists|u: int| 0 <= u < adj.len() && (#[trigger] adj[u]).len() > 0,
    decreases adj.len(),
{
    if adj.len() > 0 {
        let init = adj.drop_last();
        assert(degrees(adj).drop_last() =~= degrees(init));
        assert(adj[adj.len() - 1] == adj.last());
        if adj.last().len() == 0 {
            lemma_some_degree(init);
            let u = choose|u: int| 0 <= u < init.len() && (#[trigger] init[u]).len() > 0;
            assert(adj[u] == init[u]);
        }
    }
}

/// In an undirected graph without loops that has an edge, the least conductance is that of a cut
/// that the sweep looks at.
pub proof fn law_least_conductance_is_that_of_a_cut(
    adj: Seq<Seq<usize>>,
    keys: Seq<int>,
    order: Seq<usize>,
    least: Ratio,
)
    requires
        adj.len() <= usize::MAX,
        undirected(adj),
        loopless(adj),
        total(degrees(adj)) > 0,
        keys.len() == adj.len(),
        stable_order(keys, order),
        is_least_conductance(adj, order, least),
    ensures
        exists|m: int| #[trigger]
            swept(adj, order, m) && least.numerator * lesser_volume(adj, order.take(m)) == cut_size(
                adj,
                order.take(m),
            ) * least.denominator,
{
    let n = adj.len();
    assert(is_arrangement(order, n));
    lemma_whole_volume(adj, order, n);
    assert(adj.take(n as int) =~= adj);
    if exists|m: int| #[trigger]
        swept(adj, order, m) && least.numerator == cut_size(adj, order.take(m))
            && least.denominator == lesser_volume(adj, order.take(m)) {
        let m = choose|m: int| #[trigger]
            swept(adj, order, m) && least.numerator == cut_size(adj, order.take(m))
                && least.denominator == lesser_volume(adj, order.take(m));
        let c = cut_size(adj, order.take(m));
        let v = lesser_volume(adj, order.take(m));
        assert(least.numerator * v == c * least.denominator) by (nonlinear_arith)
            requires
                least.numerator == c,
                least.denominator == v,
        ;
        assert(swept(adj, order, m));
    } else {
        // Some edge is between nodes on both sides of a cut, whose conductance is at most one.
        lemma_some_degree(adj);
        let u = choose|u: int| 0 <= u < adj.len() && (#[trigger] adj[u]).len() > 0;
        let v = adj[u][0] as int;
        assert(adj[u].contains(v as usize));
        assert(adj[u].contains(v as usize) == adj[v].contains(u as usize));
        assert(!adj[u].contains(u as usize));
        assert(adj[v].len() > 0);
        assert(order.contains(u as usize));
        assert(order.contains(v as usize));
        let p = choose|p: int| 0 <= p < order.len() && order[p] == u as usize;
        let q = choose|q: int| 0 <= q < order.len() && order[q] == v as usize;
        let m = if p < q {
            p + 1
        } else {
            q + 1
        };
        if p < q {
            lemma_swept_between(adj, order, p, q);
        } else {
            lemma_swept_between(adj, order, q, p);
        }
        assert(swept(adj, order, m));
        lemma_edges_out_bound(adj, order.take(m), order.take(m));
        lemma_cut_fits_others(adj, order, m, m);
        let c = cut_size(adj, order.take(m));
        let lesser = lesser_volume(adj, order.take(m));
        assert(least.at_most(c, lesser));
        assert(c <= lesser);
        assert(least.numerator * lesser == c * least.denominator) by (nonlinear_arith)
            requires
                least.numerator == 1,
                least.denominator == 1,
                least.numerator * lesser <= c * least.denominator,
                c <= lesser,
        ;
    }
}

proof fn lemma_outside_set(list: Seq<usize>, set: Seq<usize>, p: int)
    ensures
        Set::new(
            |e: (int, int)| e.0 == p && 0 <= e.1 < list.len() && !set.contains(list[e.1]),
        ).finite(),
        Set::new(
            |e: (int, int)| e.0 == p && 0 <= e.1 < list.len() && !set.contains(list[e.1]),
        ).len() == outside(list, set),
    decreases list.len(),
{
    let entries = Set::new(
        |e: (int, int)| e.0 == p && 0 <= e.1 < list.len() && !set.contains(list[e.1]),
    );
    if list.len() == 0 {
        assert(entries =~= Set::empty());
    } else {
        let init = list.drop_last();
        let last = list.len() - 1;
        let before = Set::new(
            |e: (int, int)| e.0 == p && 0 <= e.1 < init.len() && !set.contains(init[e.1]),
        );
        lemma_outside_set(init, set, p);
        if set.contains(list.last()) {
            assert(entries =~= before);
        } else {
            assert(entries =~= before.insert((p, last)));
        }
    }
}

proof fn lemma_edges_out_set(adj: Seq<Seq<usize>>, nodes: Seq<usize>, set: Seq<usize>)
    ensures
        Set::new(
            |e: (int, int)|
                0 <= e.0 < nodes.len() && 0 <= e.1 < adj[nodes[e.0] as int].len() && !set.contains(
                    adj[nodes[e.0] as int][e.1],
                ),
        ).finite(),
        Set::new(
            |e: (int, int)|
                0 <= e.0 < nodes.len() && 0 <= e.1 < adj[nodes[e.0] as int].len() && !set.contains(
                    adj[nodes[e.0] as int][e.1],
                ),
        ).len() == edges_out(adj, nodes, set),
    decreases nodes.len(),
{
    let entries = Set::new(
        |e: (int, int)|
            0 <= e.0 < nodes.len() && 0 <= e.1 < adj[nodes[e.0] as int].len() && !set.contains(
                adj[nodes[e.0] as int][e.1],
            ),
    );
    if nodes.len() == 0 {
        assert(entries =~= Set::empty());
    } else {
        let init = nodes.drop_last();
        let last = nodes.len() - 1;
        let list = adj[nodes.last() as int];
        let before = Set::new(
            |e: (int, int)|
                0 <= e.0 < init.len() && 0 <= e.1 < adj[init[e.0] as int].len() && !set.contains(
                    adj[init[e.0] as int][e.1],
                ),
        );
        let row = Set::new(
            |e: (int, int)| e.0 == last && 0 <= e.1 < list.len() && !set.contains(list[e.1]),
        );
        lemma_edges_out_set(adj, init, set);
        lemma_outside_set(list, set, last);
        assert(entries =~= before + row);
        assert(before.disjoint(row));
        lemma_set_disjoint_lens(before, row);
    }
}

/// The size of a cut is the number of places at which a node of the set lists a node that is not in
/// the set.
pub proof fn law_cut_counts_crossings(adj: Seq<Seq<usize>>, set: Seq<usize>)
    ensures
        cut_size(adj, set) == Set::new(
            |e: (int, int)|
                0 <= e.0 < set.len() && 0 <= e.1 < adj[set[e.0] as int].len() && !set.contains(
                    adj[set[e.0] as int][e.1],
                ),
        ).len(),
{
    lemma_edges_out_set(adj, set, set);
}

proof fn lemma_volume_is_edges_out(adj: Seq<Seq<usize>>, set: Seq<usize>)
    ensures
        volume(adj, set) == edges_out(adj, set, Seq::empty()),
    decreases set.len(),
{
    if set.len() > 0 {
        lemma_volume_is_edges_out(adj, set.drop_last());
        lemma_outside_nothing(adj[set.last() as int]);
    }
}

/// The volume of a set is the number of places at which its nodes list neighbors.
pub proof fn law_volume_counts_entries(adj: Seq<Seq<usize>>, set: Seq<usize>)
    ensures
        volume(adj, set) == Set::new(
            |e: (int, int)| 0 <= e.0 < set.len() && 0 <= e.1 < adj[set[e.0] as int].len(),
        ).len(),
{
    lemma_volume_is_edges_out(adj, set);
    lemma_edges_out_set(adj, set, Seq::empty());
    let nothing = Seq::<usize>::empty();
    let all = Set::new(
        |e: (int, int)| 0 <= e.0 < set.len() && 0 <= e.1 < adj[set[e.0] as int].len(),
    );
    let kept = Set::new(
        |e: (int, int)|
            0 <= e.0 < set.len() && 0 <= e.1 < adj[set[e.0] as int].len() && !nothing.contains(
                adj[set[e.0] as int][e.1],
            ),
    );
    assert(all =~= kept);
}

proof fn lemma_row_set(p: int, len: nat)
    ensures
        Set::new(|e: (int, int)| e.0 == p && 0 <= e.1 < len).finite(),
        Set::new(|e: (int, int)| e.0 == p && 0 <= e.1 < len).len() == len,
    decreases len,
{
    let row = Set::new(|e: (int, int)| e.0 == p && 0 <= e.1 < len);
    if len == 0 {
        assert(row =~= Set::empty());
    } else {
        lemma_row_set(p, (len - 1) as nat);
        let before = Set::new(|e: (int, int)| e.0 == p && 0 <= e.1 < (len - 1) as nat);
        assert(row =~= before.insert((p, len - 1)));
    }
}

/// The total volume of a graph is the number of places at which its nodes list neighbors.
pub proof fn law_total_volume_counts_entries(adj: Seq<Seq<usize>>)
    ensures
        Set::new(|e: (int, int)| 0 <= e.0 < adj.len() && 0 <= e.1 < adj[e.0].len()).finite(),
        total(degrees(adj)) == Set::new(
            |e: (int, int)| 0 <= e.0 < adj.len() && 0 <= e.1 < adj[e.0].len(),
        ).len(),
    decreases adj.len(),
{
    let entries = Set::new(|e: (int, int)| 0 <= e.0 < adj.len() && 0 <= e.1 < adj[e.0].len());
    if adj.len() == 0 {
        assert(entries =~= Set::empty());
        assert(degrees(adj) =~= Seq::empty());
    } else {
        let init = adj.drop_last();
        let last = adj.len() - 1;
        let len = adj[last].len();
        law_total_volume_counts_entries(init);
        lemma_row_set(last, len);
        let before = Set::new(
            |e: (int, int)| 0 <= e.0 < init.len() && 0 <= e.1 < init[e.0].len(),
        );
        let row = Set::new(|e: (int, int)| e.0 == last && 0 <= e.1 < len);
        assert(entries =~= before + row);
        assert(before.disjoint(row));
        lemma_set_disjoint_lens(before, row);
        assert(degrees(adj).drop_last() =~= degrees(init));
        assert(degrees(adj).last() == len);
    }
}

proof fn lemma_order_arranges(keys: Seq<int>, order: Seq<usize>)
    requires
        keys.len() <= usize::MAX,
        stable_order(keys, order),
    ensures
        is_arrangement(order, keys.len()),
{
}

proof fn lemma_volume_sum(adj: Seq<Seq<usize>>, order: Seq<usize>, m: int)
    requires
        0 <= m <= order.len(),
    ensures
        volume(adj, order.take(m)) + volume(adj, order.skip(m)) == volume(adj, order),
    decreases order.len() - m,
{
    if m == order.len() {
        assert(order.take(m) =~= order);
        assert(order.skip(m) =~= Seq::empty());
    } else {
        lemma_volume_sum(adj, order, m + 1);
        let x = order[m];
        assert(order.take(m + 1).drop_last() =~= order.take(m));
        lemma_volume_remove(adj, order.skip(m), 0);
        assert(order.skip(m).remove(0) =~= order.skip(m + 1));
    }
}

/// What a cut is divided by is at most the volume in front of it and at most the volume behind it,
/// and is one of the two.
pub proof fn law_cut_is_over_the_lesser_side(
    adj: Seq<Seq<usize>>,
    keys: Seq<int>,
    order: Seq<usize>,
    m: int,
)
    requires
        adj.len() <= usize::MAX,
        keys.len() == adj.len(),
        stable_order(keys, order),
        0 <= m <= order.len(),
    ensures
        lesser_volume(adj, order.take(m)) <= volume(adj, order.take(m)),
        lesser_volume(adj, order.take(m)) <= volume(adj, order.skip(m)),
        lesser_volume(adj, order.take(m)) == volume(adj, order.take(m)) || lesser_volume(
            adj,
            order.take(m),
        ) == volume(adj, order.skip(m)),
{
    lemma_order_arranges(keys, order);
    lemma_whole_volume(adj, order, adj.len());
    assert(adj.take(adj.len() as int) =~= adj);
    lemma_volume_sum(adj, order, m);
}

/// No cut of the sweep with neighbors listed on both sides is less conductive than the least
/// conductance, which is never above one: `crossing` are the places at which a node in front lists
/// one behind, `front` and `behind` the places at which nodes of either side list neighbors. Being
/// no more than the ratio of the crossings to one of the sides is being no more than that to the
/// lesser one.
pub proof fn law_no_cut_is_less_conductive(
    adj: Seq<Seq<usize>>,
    keys: Seq<int>,
    order: Seq<usize>,
    least: Ratio,
    m: int,
    crossing: Set<(int, int)>,
    front: Set<(int, int)>,
    behind: Set<(int, int)>,
)
    requires
        adj.len() <= usize::MAX,
        keys.len() == adj.len(),
        stable_order(keys, order),
        is_least_conductance(adj, order, least),
        0 < m < order.len(),
        crossing == Set::new(
            |e: (int, int)|
                0 <= e.0 < m && 0 <= e.1 < adj[order[e.0] as int].len() && !order.take(m).contains(
                    adj[order[e.0] as int][e.1],
                ),
        ),
        front == Set::new(
            |e: (int, int)| 0 <= e.0 < m && 0 <= e.1 < adj[order[e.0] as int].len(),
        ),
        behind == Set::new(
            |e: (int, int)|
                0 <= e.0 < order.len() - m && 0 <= e.1 < adj[order[m + e.0] as int].len(),
        ),
    ensures
        least.numerator <= least.denominator,
        least.denominator > 0,
        front.len() > 0 && behind.len() > 0 ==> {
            ||| least.numerator * front.len() <= crossing.len() * least.denominator
            ||| least.numerator * behind.len() <= crossing.len() * least.denominator
        },
{
    lemma_cut_sets(adj, order, m, crossing, front, behind);
    law_cut_is_over_the_lesser_side(adj, keys, order, m);
    if front.len() > 0 && behind.len() > 0 {
        assert(swept(adj, order, m));
    }
}

proof fn lemma_cut_sets(
    adj: Seq<Seq<usize>>,
    order: Seq<usize>,
    m: int,
    crossing: Set<(int, int)>,
    front: Set<(int, int)>,
    behind: Set<(int, int)>,
)
    requires
        0 <= m <= order.len(),
        crossing == Set::new(
            |e: (int, int)|
                0 <= e.0 < m && 0 <= e.1 < adj[order[e.0] as int].len() && !order.take(m).contains(
                    adj[order[e.0] as int][e.1],
                ),
        ),
        front == Set::new(
            |e: (int, int)| 0 <= e.0 < m && 0 <= e.1 < adj[order[e.0] as int].len(),
        ),
        behind == Set::new(
            |e: (int, int)|
                0 <= e.0 < order.len() - m && 0 <= e.1 < adj[order[m + e.0] as int].len(),
        ),
    ensures
        crossing.len() == cut_size(adj, order.take(m)),
        front.len() == volume(adj, order.take(m)),
        behind.len() == volume(adj, order.skip(m)),
{
    let s = order.take(m);
    let r = order.skip(m);
    law_cut_counts_crossings(adj, s);
    law_volume_counts_entries(adj, s);
    law_volume_counts_entries(adj, r);
    assert(crossing =~= Set::new(
        |e: (int, int)|
            0 <= e.0 < s.len() && 0 <= e.1 < adj[s[e.0] as int].len() && !s.contains(
                adj[s[e.0] as int][e.1],
            ),
    ));
    assert(front =~= Set::new(
        |e: (int, int)| 0 <= e.0 < s.len() && 0 <= e.1 < adj[s[e.0] as int].len(),
    ));
    assert(behind =~= Set::new(
        |e: (int, int)| 0 <= e.0 < r.len() && 0 <= e.1 < adj[r[e.0] as int].len(),
    ));
}

/// The least conductance is one, or some cut of the sweep has it: `numerator * side == crossings *
/// denominator`, where the side is the one at which no more places list neighbors than at the other.
pub proof fn law_some_cut_is_least_conductive(
    adj: Seq<Seq<usize>>,
    keys: Seq<int>,
    order: Seq<usize>,
    least: Ratio,
) -> (m: int)
    requires
        adj.len() <= usize::MAX,
        keys.len() == adj.len(),
        stable_order(keys, order),
        is_least_conductance(adj, order, least),
    ensures
        least.numerator == least.denominator || {
            let crossings = Set::new(
                |e: (int, int)|
                    0 <= e.0 < m && 0 <= e.1 < adj[order[e.0] as int].len() && !order.take(
                        m,
                    ).contains(adj[order[e.0] as int][e.1]),
            ).len();
            let front = Set::new(
                |e: (int, int)| 0 <= e.0 < m && 0 <= e.1 < adj[order[e.0] as int].len(),
            ).len();
            let behind = Set::new(
                |e: (int, int)|
                    0 <= e.0 < order.len() - m && 0 <= e.1 < adj[order[m + e.0] as int].len(),
            ).len();
            &&& 0 < m < order.len()
            &&& front > 0 && behind > 0
            &&& front <= behind ==> least.numerator * front == crossings * least.denominator
            &&& behind <= front ==> least.numerator * behind == crossings * least.denominator
        },
{
    if least.numerator == least.denominator {
        0
    } else {
        let m = choose|m: int| #[trigger]
            swept(adj, order, m) && least.numerator == cut_size(adj, order.take(m))
                && least.denominator == lesser_volume(adj, order.take(m));
        let crossing = Set::new(
            |e: (int, int)|
                0 <= e.0 < m && 0 <= e.1 < adj[order[e.0] as int].len() && !order.take(m).contains(
                    adj[order[e.0] as int][e.1],
                ),
        );
        let front = Set::new(
            |e: (int, int)| 0 <= e.0 < m && 0 <= e.1 < adj[order[e.0] as int].len(),
        );
        let behind = Set::new(
            |e: (int, int)|
                0 <= e.0 < order.len() - m && 0 <= e.1 < adj[order[m + e.0] as int].len(),
        );
        lemma_cut_sets(adj, order, m, crossing, front, behind);
        law_cut_is_over_the_lesser_side(adj, keys, order, m);
        let n = least.numerator as int;
        let d = least.denominator as int;
        assert(n * d == n * d);
        m
    }
}

/// The edges that cross a cut, as pairs of nodes.
spec fn crossing_pairs(adj: Seq<Seq<usize>>, set: Seq<usize>) -> Set<(usize, usize)> {
    Set::new(
        |e: (usize, usize)|
            e.0 < adj.len() && e.1 < adj.len() && set.contains(e.0) && !set.contains(e.1)
                && adj[e.0 as int].contains(e.1),
    )
}

proof fn lemma_crossing_pairs(adj: Seq<Seq<usize>>, set: Seq<usize>)
    requires
        undirected(adj),
        set.no_duplicates(),
        forall|p: int| 0 <= p < set.len() ==> (#[trigger] set[p]) < adj.len(),
    ensures
        crossing_pairs(adj, set).finite(),
        crossing_pairs(adj, set).len() == cut_size(adj, set),
{
    let places = Set::new(
        |e: (int, int)|
            0 <= e.0 < set.len() && 0 <= e.1 < adj[set[e.0] as int].len() && !set.contains(
                adj[set[e.0] as int][e.1],
            ),
    );
    lemma_edges_out_set(adj, set, set);
    let pair_at = |e: (int, int)| (set[e.0], adj[set[e.0] as int][e.1]);
    let pairs = crossing_pairs(adj, set);
    assert forall|e: (usize, usize)| pairs.contains(e) implies places.map(pair_at).contains(e) by {
        let p = choose|p: int| 0 <= p < set.len() && set[p] == e.0;
        let list = adj[e.0 as int];
        let k = choose|k: int| 0 <= k < list.len() && list[k] == e.1;
        assert(places.contains((p, k)));
        assert(pair_at((p, k)) == e);
    }
    assert forall|e: (usize, usize)| places.map(pair_at).contains(e) implies pairs.contains(e) by {
        let place = choose|place: (int, int)| places.contains(place) && pair_at(place) == e;
        assert(set[place.0] < adj.len());
        assert(adj[set[place.0] as int][place.1] < adj.len());
    }
    assert(places.map(pair_at) =~= pairs);
    assert(injective_on(pair_at, places)) by {
        assert forall|x: (int, int), y: (int, int)|
            places.contains(x) && places.contains(y) && #[trigger] pair_at(x) == #[trigger] pair_at(
                y,
            ) implies x == y by {
            assert(set[x.0] == set[y.0]);
            assert(set[x.0] < adj.len());
            assert(adj[set[x.0] as int].no_duplicates());
        }
    }
    lemma_map_size(places, pairs, pair_at);
}

/// In an undirected graph, as many edges cross a cut from either side: `others` are the nodes that
/// are not in `set`.
pub proof fn law_cut_has_two_sides(adj: Seq<Seq<usize>>, set: Seq<usize>, others: Seq<usize>)
    requires
        undirected(adj),
        set.no_duplicates(),
        others.no_duplicates(),
        forall|p: int| 0 <= p < set.len() ==> (#[trigger] set[p]) < adj.len(),
        forall|p: int| 0 <= p < others.len() ==> (#[trigger] others[p]) < adj.len(),
        forall|x: usize| x < adj.len() ==> set.contains(x) != #[trigger] others.contains(x),
    ensures
        cut_size(adj, set) == cut_size(adj, others),
{
    let there = crossing_pairs(adj, set);
    let back = crossing_pairs(adj, others);
    lemma_crossing_pairs(adj, set);
    lemma_crossing_pairs(adj, others);
    let swap = |e: (usize, usize)| (e.1, e.0);
    assert forall|e: (usize, usize)| there.contains(e) implies back.contains((e.1, e.0)) by {
        assert(others.contains(e.1));
        assert(set.contains(e.0) != others.contains(e.0));
        assert(adj[e.0 as int].contains((e.1 as int) as usize) == adj[e.1 as int].contains(
            (e.0 as int) as usize,
        ));
    }
    assert forall|e: (usize, usize)| back.contains(e) implies there.map(swap).contains(e) by {
        assert(set.contains(e.1) != others.contains(e.1));
        assert(set.contains(e.0) != others.contains(e.0));
        assert(adj[e.0 as int].contains((e.1 as int) as usize) == adj[e.1 as int].contains(
            (e.0 as int) as usize,
        ));
        assert(there.contains((e.1, e.0)));
        assert(swap((e.1, e.0)) == e);
    }
    assert(there.map(swap) =~= back);
    assert(injective_on(swap, there));
    lemma_map_size(there, back, swap);
}

proof fn lemma_reverse_volume(adj: Seq<Seq<usize>>, order: Seq<usize>, m: int)
    requires
        0 <= m <= order.len(),
    ensures
        volume(adj, order.reverse().take(m)) + volume(adj, order.take(order.len() - m)) == volume(
            adj,
            order,
        ),
    decreases m,
{
    let n = order.len() as int;
    if m == 0 {
        assert(order.take(n) =~= order);
        assert(order.reverse().take(0) =~= Seq::empty());
    } else {
        lemma_reverse_volume(adj, order, m - 1);
        assert(order.reverse().take(m).drop_last() =~= order.reverse().take(m - 1));
        assert(order.reverse().take(m).last() == order[n - m]);
        assert(order.take(n - m + 1).drop_last() =~= order.take(n - m));
        assert(order.take(n - m + 1).last() == order[n - m]);
    }
}

proof fn lemma_reversed_cut(adj: Seq<Seq<usize>>, order: Seq<usize>, m: int)
    requires
        adj.len() <= usize::MAX,
        undirected(adj),
        is_arrangement(order, adj.len()),
        0 <= m <= order.len(),
    ensures
        cut_size(adj, order.reverse().take(m)) == cut_size(adj, order.take(order.len() - m)),
        lesser_volume(adj, order.reverse().take(m)) == lesser_volume(
            adj,
            order.take(order.len() - m),
        ),
{
    let n = order.len() as int;
    let set = order.take(n - m);
    let others = order.reverse().take(m);
    assert forall|p: int| 0 <= p < others.len() implies others[p] == order[n - 1 - p] by {}
    assert(set.no_duplicates());
    assert(others.no_duplicates());
    assert forall|p: int| 0 <= p < set.len() implies (#[trigger] set[p]) < adj.len() by {
        assert(set[p] == order[p]);
    }
    assert forall|p: int| 0 <= p < others.len() implies (#[trigger] others[p]) < adj.len() by {
        assert(others[p] == order[n - 1 - p]);
    }
    assert forall|x: usize| x < adj.len() implies set.contains(x) != #[trigger] others.contains(
        x,
    ) by {
        assert(order.contains(x));
        let q = choose|q: int| 0 <= q < n && order[q] == x;
        if q < n - m {
            assert(set[q] == x);
            if others.contains(x) {
                let p = choose|p: int| 0 <= p < m && others[p] == x;
                assert(order[n - 1 - p] == order[q]);
            }
        } else {
            assert(others[n - 1 - q] == x);
            if set.contains(x) {
                let p = choose|p: int| 0 <= p < n - m && set[p] == x;
                assert(order[p] == order[q]);
            }
        }
    }
    law_cut_has_two_sides(adj, set, others);
    lemma_reverse_volume(adj, order, m);
    lemma_whole_volume(adj, order, adj.len());
    assert(adj.take(adj.len() as int) =~= adj);
}

/// The direction of a sweep over an undirected graph does not matter: the least conductance in one
/// order is the least in the reverse order.
pub proof fn law_sweep_direction_does_not_matter(
    adj: Seq<Seq<usize>>,
    keys: Seq<int>,
    order: Seq<usize>,
    least: Ratio,
)
    requires
        adj.len() <= usize::MAX,
        undirected(adj),
        keys.len() == adj.len(),
        stable_order(keys, order),
        is_least_conductance(adj, order, least),
    ensures
        is_least_conductance(adj, order.reverse(), least),
{
    lemma_order_arranges(keys, order);
    let back = order.reverse();
    let n = order.len() as int;
    assert forall|m: int| #[trigger] swept(adj, back, m) implies least.at_most(
        cut_size(adj, back.take(m)),
        lesser_volume(adj, back.take(m)),
    ) by {
        lemma_reversed_cut(adj, order, m);
        assert(swept(adj, order, n - m));
    }
    if !(least.numerator == 1 && least.denominator == 1) {
        let m = choose|m: int| #[trigger]
            swept(adj, order, m) && least.numerator == cut_size(adj, order.take(m))
                && least.denominator == lesser_volume(adj, order.take(m));
        lemma_reversed_cut(adj, order, n - m);
        assert(swept(adj, back, n - m));
    }
}

/// The constant is zero without two nodes, or where no two neighbors are listed in all. Otherwise it
/// is the least conductance of a sweep over the nodes, each once, in an order in which no node comes
/// before one whose number in the vector is below its own; nodes with the same number come in their
/// own order.
pub proof fn law_sweep_follows_the_vector(
    adj: Seq<Seq<usize>>,
    fiedler: Seq<Binary64>,
    constant: Ratio,
) -> (order: Seq<usize>)
    requires
        adj.len() <= usize::MAX,
        adj.len() <= fiedler.len(),
        is_cheeger_constant(adj, fiedler, constant),
    ensures
        ({
            let listed = Set::new(
                |e: (int, int)| 0 <= e.0 < adj.len() && 0 <= e.1 < adj[e.0].len(),
            ).len();
            &&& adj.len() <= 1 || listed <= 1 ==> constant.numerator == 0 && constant.denominator
                == 1
            &&& adj.len() > 1 && listed > 1 ==> {
                &&& is_least_conductance(adj, order, constant)
                &&& order.len() == adj.len()
                &&& order.no_duplicates()
                &&& forall|x: usize| x < adj.len() ==> #[trigger] order.contains(x)
                &&& forall|p: int, q: int|
                    #![trigger order[p], order[q]]
                    0 <= p < q < order.len() ==> !fiedler[order[q] as int].below(
                        fiedler[order[p] as int],
                    )
            }
        }),
{
    law_total_volume_counts_entries(adj);
    if adj.len() > 1 && total(degrees(adj)) > 1 {
        let values = fiedler.take(adj.len() as int);
        let order = choose|order: Seq<usize>| #[trigger]
            stable_order(ranks(values), order) && is_least_conductance(adj, order, constant);
        law_numbers_are_sorted(values, order);
        law_stable_order_sorts(ranks(values), order);
        assert forall|p: int, q: int|
            #![trigger order[p], order[q]]
            0 <= p < q < order.len() implies !fiedler[order[q] as int].below(
            fiedler[order[p] as int],
        ) by {
            assert(values[order[p] as int] == fiedler[order[p] as int]);
            assert(values[order[q] as int] == fiedler[order[q] as int]);
        }
        order
    } else {
        Seq::empty()
    }
}

/// A graph can be swept along a vector that has a number for each node, if its nodes list nodes only
/// and no more than a `usize` tells. A graph of one node can be swept along any vector, and no other
/// along one that has too few numbers.
pub proof fn law_what_can_be_swept(adj: Seq<Seq<usize>>, fiedler: Seq<Binary64>)
    ensures
        adj.len() <= 1 ==> sweepable(adj, fiedler),
        adj.len() <= fiedler.len() && (forall|i: int|
            0 <= i < adj.len() ==> !(#[trigger] fiedler[i]).nan()) && (forall|i: int, k: int|
            0 <= i < adj.len() && 0 <= k < adj[i].len() ==> (#[trigger] adj[i][k]) < adj.len())
            && Set::new(
            |e: (int, int)| 0 <= e.0 < adj.len() && 0 <= e.1 < adj[e.0].len(),
        ).len() <= usize::MAX ==> sweepable(adj, fiedler),
        sweepable(adj, fiedler) && adj.len() > 1 ==> adj.len() <= fiedler.len() && forall|i: int|
            0 <= i < adj.len() ==> !(#[trigger] fiedler[i]).nan(),
{
    law_total_volume_counts_entries(adj);
    if adj.len() <= fiedler.len() {
        let values = fiedler.take(adj.len() as int);
        assert forall|i: int| 0 <= i < adj.len() implies fiedler[i] == #[trigger] values[i] by {}
        if sweepable(adj, fiedler) && adj.len() > 1 {
            assert forall|i: int| 0 <= i < adj.len() implies !(#[trigger] fiedler[i]).nan() by {
                assert(!values[i].nan());
            }
        }
    }
}

} // verus!
