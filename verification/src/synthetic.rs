//! Synthetic clustered graphs.

use vstd::prelude::*;

use crate::adjacency::{loopless, undirected, AdjacencyList};
use crate::cheeger::{degrees, sweepable};
use crate::clusters::{
    law_size_counts_members, lemma_occurrence_set, lemma_total_update, lemma_total_zeros, total,
};
use crate::eigen::lesser;
use crate::kmeans::{all_members, collect_members, law_members, members_of};
use crate::ordering::{all_numbers, Binary64};
use crate::random::random_below;
use crate::text::nested;

verus! {

/// The cluster of node `i` of `n`: the nodes fall into clusters of the same size, in order, and the
/// last cluster takes the nodes that are left over.
pub open spec fn cluster_of(n: nat, clusters: nat, i: int) -> int {
    let cluster = i / (n / clusters) as int;
    if cluster < clusters {
        cluster
    } else {
        clusters - 1
    }
}

/// The cluster of each of `n` nodes.
pub open spec fn cluster_assignments(n: nat, clusters: nat) -> Seq<usize> {
    Seq::new(n, |i: int| cluster_of(n, clusters, i) as usize)
}

/// A graph with an edge between two nodes added, unless they are the same or have one already.
pub open spec fn connected(adj: Seq<Seq<usize>>, a: usize, b: usize) -> Seq<Seq<usize>> {
    if a == b || adj[a as int].contains(b) {
        adj
    } else {
        adj.update(a as int, adj[a as int].push(b)).update(b as int, adj[b as int].push(a))
    }
}

/// The graph over `n` nodes that some edges make, taken in order.
pub open spec fn graph_of(n: nat, edges: Seq<(usize, usize)>) -> Seq<Seq<usize>>
    decreases edges.len(),
{
    if edges.len() == 0 {
        Seq::new(n, |i: int| Seq::<usize>::empty())
    } else {
        connected(graph_of(n, edges.drop_last()), edges.last().0, edges.last().1)
    }
}

/// All edges are between nodes below `n`.
pub open spec fn edges_within(edges: Seq<(usize, usize)>, n: nat) -> bool {
    forall|p: int|
        0 <= p < edges.len() ==> (#[trigger] edges[p]).0 < n && edges[p].1 < n
}

/// The edges from a node to each of some targets.
pub open spec fn edges_from(a: usize, targets: Seq<usize>) -> Seq<(usize, usize)> {
    targets.map_values(|b: usize| (a, b))
}

/// The edges from each node to its targets.
pub open spec fn target_edges(targets: Seq<Seq<usize>>) -> Seq<(usize, usize)>
    decreases targets.len(),
{
    if targets.len() == 0 {
        Seq::empty()
    } else {
        target_edges(targets.drop_last()) + edges_from(
            (targets.len() - 1) as usize,
            targets.last(),
        )
    }
}

/// Those of some pairs of nodes that are in different clusters.
pub open spec fn bridges_among(
    assignments: Seq<usize>,
    pairs: Seq<(usize, usize)>,
) -> Seq<(usize, usize)>
    decreases pairs.len(),
{
    if pairs.len() == 0 {
        Seq::empty()
    } else {
        let before = bridges_among(assignments, pairs.drop_last());
        let (a, b) = pairs.last();
        if assignments[a as int] != assignments[b as int] {
            before.push((a, b))
        } else {
            before
        }
    }
}

/// What chance decides in a synthetic graph: the nodes of its own cluster that each node is linked
/// to, three to seven of them where there are as many others, and for every twentieth node a pair
/// of any nodes.
pub open spec fn is_draw(
    n: nat,
    clusters: nat,
    targets: Seq<Seq<usize>>,
    pairs: Seq<(usize, usize)>,
) -> bool {
    let assignments = cluster_assignments(n, clusters);
    &&& targets.len() == n
    &&& forall|a: int| 0 <= a < n ==> is_target_draw(assignments, a, #[trigger] targets[a])
    &&& pairs.len() == n / 20
    &&& edges_within(pairs, n)
}

/// Whether these are nodes that node `a` can be linked to within its cluster.
pub open spec fn is_target_draw(assignments: Seq<usize>, a: int, targets: Seq<usize>) -> bool {
    let others = (members_of(assignments, assignments[a]).len() - 1) as nat;
    &&& lesser(3, others) <= targets.len() <= lesser(7, others)
    &&& forall|j: int|
        0 <= j < targets.len() ==> (#[trigger] targets[j]) < assignments.len()
            && assignments[targets[j] as int] == assignments[a]
}

/// The edges of a synthetic graph: dense within clusters, then sparse bridges between them.
pub open spec fn synthetic_edges(
    n: nat,
    clusters: nat,
    targets: Seq<Seq<usize>>,
    pairs: Seq<(usize, usize)>,
) -> Seq<(usize, usize)> {
    target_edges(targets) + bridges_among(cluster_assignments(n, clusters), pairs)
}

/// An edge was given, in either direction.
pub open spec fn given(edges: Seq<(usize, usize)>, a: usize, b: usize) -> bool {
    edges.contains((a, b)) || edges.contains((b, a))
}

/// Which nodes are neighbors after one more edge.
proof fn lemma_connected(adj: Seq<Seq<usize>>, a: usize, b: usize)
    requires
        adj.len() <= usize::MAX,
        undirected(adj),
        loopless(adj),
        a < adj.len(),
        b < adj.len(),
    ensures
        undirected(connected(adj, a, b)),
        loopless(connected(adj, a, b)),
        connected(adj, a, b).len() == adj.len(),
        forall|x: usize, y: usize|
            x < adj.len() && y < adj.len() ==> #[trigger] connected(
                adj,
                a,
                b,
            )[x as int].contains(y) == (adj[x as int].contains(y) || (a != b && ((x == a && y == b)
                || (x == b && y == a)))),
{
    let after = connected(adj, a, b);
    if !(a == b || adj[a as int].contains(b)) {
        assert(!adj[b as int].contains(a)) by {
            assert(adj[a as int].contains(b as usize) == adj[b as int].contains(a as usize));
        }
        lemma_push_contains(adj[a as int], b);
        lemma_push_contains(adj[b as int], a);
        assert forall|x: usize, y: usize| x < adj.len() && y < adj.len() implies #[trigger] after[x as int].contains(
            y,
        ) == (adj[x as int].contains(y) || (a != b && ((x == a && y == b) || (x == b && y
            == a)))) by {
            assert(after[a as int] == adj[a as int].push(b));
            assert(after[b as int] == adj[b as int].push(a));
        }
        assert(after[a as int].no_duplicates());
        assert(after[b as int].no_duplicates());
        assert(undirected(after)) by {
            assert forall|i: int, k: int|
                0 <= i < after.len() && 0 <= k < after[i].len() implies (#[trigger] after[i][k])
                < after.len() by {
                if k < adj[i].len() {
                    assert(after[i][k] == adj[i][k]);
                }
            }
            assert forall|i: int, j: int|
                0 <= i < after.len() && 0 <= j < after.len() implies #[trigger] after[i].contains(
                j as usize,
            ) == after[j].contains(i as usize) by {
                let x = i as usize;
                let y = j as usize;
                assert(after[x as int].contains(y) == (adj[x as int].contains(y) || (a != b && ((x
                    == a && y == b) || (x == b && y == a)))));
                assert(after[y as int].contains(x) == (adj[y as int].contains(x) || (a != b && ((y
                    == a && x == b) || (y == b && x == a)))));
                assert(adj[i].contains(j as usize) == adj[j].contains(i as usize));
            }
        }
        assert(loopless(after)) by {
            assert forall|i: int| 0 <= i < after.len() implies !(#[trigger] after[i]).contains(
                i as usize,
            ) by {
                let x = i as usize;
                assert(!adj[i].contains(i as usize));
                assert(after[x as int].contains(x) == (adj[x as int].contains(x) || (a != b && ((x
                    == a && x == b) || (x == b && x == a)))));
            }
        }
    } else {
        assert(adj[a as int].contains(b as usize) == adj[b as int].contains(a as usize));
    }
}

proof fn lemma_push_contains(list: Seq<usize>, value: usize)
    ensures
        forall|x: usize| #[trigger]
            list.push(value).contains(x) == (list.contains(x) || x == value),
{
    let longer = list.push(value);
    assert forall|x: usize| #[trigger] longer.contains(x) == (list.contains(x) || x == value) by {
        if list.contains(x) {
            let p = choose|p: int| 0 <= p < list.len() && list[p] == x;
            assert(longer[p] == x);
        }
        if longer.contains(x) {
            let p = choose|p: int| 0 <= p < longer.len() && longer[p] == x;
            if p < list.len() {
                assert(list[p] == x);
            }
        }
        assert(longer[list.len() as int] == value);
    }
}

/// A graph made of edges is undirected, without loops or parallel edges, and two nodes are
/// neighbors in it if and only if they differ and an edge between them was given.
pub proof fn law_graph_of_edges(n: nat, edges: Seq<(usize, usize)>)
    requires
        n <= usize::MAX,
        edges_within(edges, n),
    ensures
        graph_of(n, edges).len() == n,
        undirected(graph_of(n, edges)),
        loopless(graph_of(n, edges)),
        forall|a: usize, b: usize|
            a < n && b < n ==> #[trigger] graph_of(n, edges)[a as int].contains(b) == (a != b
                && given(edges, a, b)),
    decreases edges.len(),
{
    if edges.len() > 0 {
        let init = edges.drop_last();
        let (a, b) = edges.last();
        assert(edges[edges.len() - 1] == (a, b));
        assert(edges_within(init, n)) by {
            assert forall|p: int| 0 <= p < init.len() implies (#[trigger] init[p]).0 < n && init[p].1
                < n by {
                assert(init[p] == edges[p]);
            }
        }
        law_graph_of_edges(n, init);
        let before = graph_of(n, init);
        lemma_connected(before, a, b);
        assert forall|x: usize, y: usize| x < n && y < n implies #[trigger] graph_of(
            n,
            edges,
        )[x as int].contains(y) == (x != y && given(edges, x, y)) by {
            assert(before[x as int].contains(y) == (x != y && given(init, x, y)));
            lemma_last_given(edges, (x, y));
            lemma_last_given(edges, (y, x));
        }
    }
}

proof fn lemma_last_given(edges: Seq<(usize, usize)>, edge: (usize, usize))
    requires
        edges.len() > 0,
    ensures
        edges.contains(edge) == (edges.drop_last().contains(edge) || edges.last() == edge),
{
    let init = edges.drop_last();
    if edges.contains(edge) {
        let p = choose|p: int| 0 <= p < edges.len() && edges[p] == edge;
        if p < init.len() {
            assert(init[p] == edge);
        }
    }
    if init.contains(edge) {
        let p = choose|p: int| 0 <= p < init.len() && init[p] == edge;
        assert(edges[p] == edge);
    }
    assert(edges[edges.len() - 1] == edges.last());
}

/// Adds an edge between two nodes, unless they are the same or have one already.
fn connect(adj: &mut AdjacencyList, a: usize, b: usize)
    requires
        a < old(adj)@.len(),
        b < old(adj)@.len(),
    ensures
        nested(final(adj)@) == connected(nested(old(adj)@), a, b),
{
    let ghost before = nested(adj@);
    if a == b {
        return;
    }
    assert(before[a as int] == adj@[a as int]@);
    assert(before[b as int] == adj@[b as int]@);
    let mut i: usize = 0;
    while i < adj[a].len()
        invariant
            a < adj@.len(),
            *adj == *old(adj),
            before == nested(adj@),
            before[a as int] == adj@[a as int]@,
            i <= adj@[a as int]@.len(),
            forall|p: int| 0 <= p < i ==> #[trigger] before[a as int][p] != b,
        decreases adj@[a as int]@.len() - i,
    {
        if adj[a][i] == b {
            assert(before[a as int][i as int] == b);
            return;
        }
        i = i + 1;
    }
    adj[a].push(b);
    adj[b].push(a);
    assert(nested(adj@) =~= connected(before, a, b));
}

/// Builds the graph over `n` nodes that some edges make.
pub fn graph_from_edges(n: usize, edges: &Vec<(usize, usize)>) -> (adj: AdjacencyList)
    requires
        edges_within(edges@, n as nat),
    ensures
        nested(adj@) == graph_of(n as nat, edges@),
{
    let mut adj: AdjacencyList = Vec::new();
    let mut i: usize = 0;
    while i < n
        invariant
            i <= n,
            adj@.len() == i,
            forall|p: int| 0 <= p < i ==> (#[trigger] adj@[p])@ == Seq::<usize>::empty(),
        decreases n - i,
    {
        adj.push(Vec::new());
        i = i + 1;
    }
    assert(edges@.take(0) =~= Seq::empty());
    assert(nested(adj@) =~= graph_of(n as nat, edges@.take(0)));
    let mut i: usize = 0;
    while i < edges.len()
        invariant
            i <= edges@.len(),
            edges_within(edges@, n as nat),
            adj@.len() == n,
            nested(adj@) == graph_of(n as nat, edges@.take(i as int)),
        decreases edges.len() - i,
    {
        let (a, b) = edges[i];
        proof {
            assert(edges@[i as int] == (a, b));
            assert(edges@.take(i + 1).drop_last() =~= edges@.take(i as int));
        }
        connect(&mut adj, a, b);
        assert(nested(adj@).len() == n);
        i = i + 1;
    }
    assert(edges@.take(i as int) =~= edges@);
    adj
}

/// A graph of `n` nodes in `clusters` clusters can be made: no cluster is empty.
pub open spec fn clusterable(n: nat, clusters: nat) -> bool {
    clusters > 0 && (n == 0 || clusters <= n)
}

proof fn lemma_cluster_of(n: nat, clusters: nat, i: int)
    requires
        clusterable(n, clusters),
        0 <= i < n,
    ensures
        n / clusters > 0,
        0 <= cluster_of(n, clusters, i) < clusters,
{
    assert(n / clusters > 0) by (nonlinear_arith)
        requires
            0 < clusters <= n,
    ;
    let size = (n / clusters) as int;
    assert(i / size >= 0) by (nonlinear_arith)
        requires
            i >= 0,
            size > 0,
    ;
}

/// Assigns each of `n` nodes to one of the clusters.
pub fn assign_clusters(n: usize, clusters: usize) -> (assignments: Vec<usize>)
    requires
        clusterable(n as nat, clusters as nat),
    ensures
        assignments@ == cluster_assignments(n as nat, clusters as nat),
        forall|i: int| 0 <= i < n ==> (#[trigger] assignments@[i]) < clusters,
{
    let mut assignments: Vec<usize> = Vec::new();
    let cluster_size: usize = n / clusters;
    let mut i: usize = 0;
    while i < n
        invariant
            i <= n,
            clusterable(n as nat, clusters as nat),
            cluster_size == n / clusters,
            assignments@.len() == i,
            forall|p: int|
                0 <= p < i ==> #[trigger] assignments@[p] == cluster_of(
                    n as nat,
                    clusters as nat,
                    p,
                ) && assignments@[p] < clusters,
        decreases n - i,
    {
        proof {
            lemma_cluster_of(n as nat, clusters as nat, i as int);
        }
        let cluster: usize = i / cluster_size;
        if cluster < clusters {
            assignments.push(cluster);
        } else {
            assignments.push(clusters - 1);
        }
        i = i + 1;
    }
    assert(assignments@ =~= cluster_assignments(n as nat, clusters as nat));
    assignments
}

/// Draws nodes of the same cluster to link a node to.
fn draw_targets(members: &Vec<usize>) -> (targets: Vec<usize>)
    requires
        members@.len() > 0,
    ensures
        lesser(3, (members@.len() - 1) as nat) <= targets@.len() <= lesser(
            7,
            (members@.len() - 1) as nat,
        ),
        forall|j: int| 0 <= j < targets@.len() ==> members@.contains(#[trigger] targets@[j]),
{
    let wanted: usize = 3 + random_below(5);
    let k: usize = if wanted <= members.len() - 1 {
        wanted
    } else {
        members.len() - 1
    };
    let mut targets: Vec<usize> = Vec::new();
    while targets.len() < k
        invariant
            members@.len() > 0,
            targets@.len() <= k,
            forall|j: int| 0 <= j < targets@.len() ==> members@.contains(#[trigger] targets@[j]),
        decreases k - targets.len(),
    {
        let position: usize = random_below(members.len());
        assert(members@.contains(members@[position as int]));
        targets.push(members[position]);
    }
    targets
}

/// Builds the graph of `n` nodes in which each node is linked to its targets, and each pair of
/// nodes in different clusters is linked too.
pub fn synthetic_from_draw(
    n: usize,
    clusters: usize,
    targets: &Vec<Vec<usize>>,
    pairs: &Vec<(usize, usize)>,
) -> (adj: AdjacencyList)
    requires
        clusterable(n as nat, clusters as nat),
        targets@.len() == n,
        forall|a: int, j: int|
            0 <= a < n && 0 <= j < targets@[a]@.len() ==> (#[trigger] targets@[a]@[j]) < n,
        edges_within(pairs@, n as nat),
    ensures
        nested(adj@) == graph_of(
            n as nat,
            synthetic_edges(n as nat, clusters as nat, nested(targets@), pairs@),
        ),
{
    let assignments = assign_clusters(n, clusters);
    let ghost lists = nested(targets@);
    let mut edges: Vec<(usize, usize)> = Vec::new();
    let mut a: usize = 0;
    assert(lists.take(0) =~= Seq::empty());
    while a < n
        invariant
            a <= n,
            n == targets@.len(),
            lists == nested(targets@),
            forall|a: int, j: int|
                0 <= a < n && 0 <= j < targets@[a]@.len() ==> (#[trigger] targets@[a]@[j]) < n,
            edges@ == target_edges(lists.take(a as int)),
            edges_within(edges@, n as nat),
        decreases n - a,
    {
        let ghost before = edges@;
        let ghost list = targets@[a as int]@;
        let mut j: usize = 0;
        assert(before + edges_from(a, list.take(0)) =~= before);
        while j < targets[a].len()
            invariant
                a < n,
                n == targets@.len(),
                list == targets@[a as int]@,
                j <= list.len(),
                forall|a: int, j: int|
                    0 <= a < n && 0 <= j < targets@[a]@.len() ==> (#[trigger] targets@[a]@[j]) < n,
                edges@ == before + edges_from(a, list.take(j as int)),
                edges_within(edges@, n as nat),
            decreases list.len() - j,
        {
            let b: usize = targets[a][j];
            assert(targets@[a as int]@[j as int] == b);
            edges.push((a, b));
            assert(edges@ =~= before + edges_from(a, list.take(j + 1)));
            j = j + 1;
        }
        proof {
            assert(list.take(j as int) =~= list);
            assert(lists.take(a + 1).drop_last() =~= lists.take(a as int));
            assert(lists.take(a + 1).last() == list);
        }
        a = a + 1;
    }
    assert(lists.take(a as int) =~= lists);
    let ghost inner = edges@;
    let mut i: usize = 0;
    assert(pairs@.take(0) =~= Seq::empty());
    assert(inner + bridges_among(assignments@, pairs@.take(0)) =~= inner);
    while i < pairs.len()
        invariant
            i <= pairs@.len(),
            assignments@.len() == n,
            edges_within(pairs@, n as nat),
            edges_within(edges@, n as nat),
            edges@ == inner + bridges_among(assignments@, pairs@.take(i as int)),
        decreases pairs.len() - i,
    {
        let (a, b) = pairs[i];
        proof {
            assert(pairs@[i as int] == (a, b));
            assert(pairs@.take(i + 1).drop_last() =~= pairs@.take(i as int));
            assert(pairs@.take(i + 1).last() == (a, b));
        }
        if assignments[a] != assignments[b] {
            edges.push((a, b));
            assert(edges@ =~= inner + bridges_among(assignments@, pairs@.take(i as int)).push(
                (a, b),
            ));
        }
        i = i + 1;
    }
    assert(pairs@.take(i as int) =~= pairs@);
    graph_from_edges(n, &edges)
}

/// Whether this is the graph of some draw.
pub open spec fn is_synthetic(n: nat, clusters: nat, adj: Seq<Seq<usize>>) -> bool {
    exists|targets: Seq<Seq<usize>>, pairs: Seq<(usize, usize)>| #[trigger]
        is_draw(n, clusters, targets, pairs) && adj == graph_of(
            n,
            synthetic_edges(n, clusters, targets, pairs),
        )
}

/// Generates a synthetic clustered adjacency list for testing.
pub fn generate_synthetic(n: usize, clusters: usize) -> (adj: AdjacencyList)
    requires
        clusterable(n as nat, clusters as nat),
    ensures
        adj@.len() == n,
        undirected(nested(adj@)),
        loopless(nested(adj@)),
        is_synthetic(n as nat, clusters as nat, nested(adj@)),
{
    let assignments = assign_clusters(n, clusters);
    let members = collect_members(&assignments, clusters);
    let mut targets: Vec<Vec<usize>> = Vec::new();
    let mut a: usize = 0;
    while a < n
        invariant
            a <= n,
            assignments@ == cluster_assignments(n as nat, clusters as nat),
            forall|i: int| 0 <= i < n ==> (#[trigger] assignments@[i]) < clusters,
            nested(members@) == all_members(assignments@, clusters as nat),
            targets@.len() == a,
            forall|p: int|
                0 <= p < a ==> is_target_draw(assignments@, p, (#[trigger] targets@[p])@),
        decreases n - a,
    {
        let cluster: usize = assignments[a];
        proof {
            assert(nested(members@).len() == clusters);
            assert(members@.len() == clusters);
            assert(nested(members@)[cluster as int] == members@[cluster as int]@);
            law_members(assignments@, cluster);
            assert(members_of(assignments@, cluster).contains(a));
        }
        let drawn = draw_targets(&members[cluster]);
        proof {
            assert forall|j: int| 0 <= j < drawn@.len() implies (#[trigger] drawn@[j])
                < assignments@.len() && assignments@[drawn@[j] as int]
                == assignments@[a as int] by {
                assert(members_of(assignments@, cluster).contains(drawn@[j]));
            }
            assert(is_target_draw(assignments@, a as int, drawn@));
        }
        targets.push(drawn);
        a = a + 1;
    }
    let mut pairs: Vec<(usize, usize)> = Vec::new();
    while pairs.len() < n / 20
        invariant
            pairs@.len() <= n / 20,
            edges_within(pairs@, n as nat),
        decreases n / 20 - pairs.len(),
    {
        let one: usize = random_below(n);
        let other: usize = random_below(n);
        pairs.push((one, other));
    }
    proof {
        let lists = nested(targets@);
        assert forall|p: int| 0 <= p < n implies is_target_draw(
            assignments@,
            p,
            #[trigger] lists[p],
        ) by {
            assert(lists[p] == targets@[p]@);
        }
        assert forall|a: int, j: int| 0 <= a < n && 0 <= j < targets@[a]@.len() implies (
        #[trigger] targets@[a]@[j]) < n by {
            assert(is_target_draw(assignments@, a, targets@[a]@));
        }
        assert(is_draw(n as nat, clusters as nat, lists, pairs@));
        lemma_synthetic_within(n as nat, clusters as nat, lists, pairs@);
        law_graph_of_edges(
            n as nat,
            synthetic_edges(n as nat, clusters as nat, lists, pairs@),
        );
    }
    synthetic_from_draw(n, clusters, &targets, &pairs)
}

proof fn lemma_target_edges(targets: Seq<Seq<usize>>, a: usize, b: usize)
    requires
        targets.len() <= usize::MAX,
    ensures
        target_edges(targets).contains((a, b)) == (a < targets.len()
            && targets[a as int].contains(b)),
    decreases targets.len(),
{
    if targets.len() > 0 {
        let init = targets.drop_last();
        let last = (targets.len() - 1) as usize;
        lemma_target_edges(init, a, b);
        let before = target_edges(init);
        let added = edges_from(last, targets.last());
        let all = target_edges(targets);
        assert(all == before + added);
        if all.contains((a, b)) {
            let p = choose|p: int| 0 <= p < all.len() && all[p] == (a, b);
            if p < before.len() {
                assert(before[p] == (a, b));
            } else {
                assert(added[p - before.len()] == (a, b));
                assert(targets.last()[p - before.len()] == b);
            }
        }
        if a < targets.len() && targets[a as int].contains(b) {
            if a < last {
                assert(before.contains((a, b)));
                let p = choose|p: int| 0 <= p < before.len() && before[p] == (a, b);
                assert(all[p] == (a, b));
            } else {
                let p = choose|p: int| 0 <= p < targets.last().len() && targets.last()[p] == b;
                assert(added[p] == (a, b));
                assert(all[before.len() + p] == (a, b));
            }
        }
    }
}

proof fn lemma_bridges(assignments: Seq<usize>, pairs: Seq<(usize, usize)>, edge: (usize, usize))
    ensures
        bridges_among(assignments, pairs).contains(edge) == (pairs.contains(edge)
            && assignments[edge.0 as int] != assignments[edge.1 as int]),
        bridges_among(assignments, pairs).len() <= pairs.len(),
    decreases pairs.len(),
{
    if pairs.len() > 0 {
        lemma_bridges(assignments, pairs.drop_last(), edge);
        lemma_last_given(pairs, edge);
        let all = bridges_among(assignments, pairs);
        if assignments[pairs.last().0 as int] != assignments[pairs.last().1 as int] {
            lemma_last_given(all, edge);
            assert(all.drop_last() =~= bridges_among(assignments, pairs.drop_last()));
        }
    }
}

proof fn lemma_synthetic_edge(
    n: nat,
    clusters: nat,
    targets: Seq<Seq<usize>>,
    pairs: Seq<(usize, usize)>,
    a: usize,
    b: usize,
)
    requires
        targets.len() == n,
        n <= usize::MAX,
    ensures
        synthetic_edges(n, clusters, targets, pairs).contains((a, b)) == ((a < n
            && targets[a as int].contains(b)) || (pairs.contains((a, b)) && cluster_assignments(
            n,
            clusters,
        )[a as int] != cluster_assignments(n, clusters)[b as int])),
{
    let assignments = cluster_assignments(n, clusters);
    let inner = target_edges(targets);
    let outer = bridges_among(assignments, pairs);
    let all = synthetic_edges(n, clusters, targets, pairs);
    lemma_target_edges(targets, a, b);
    lemma_bridges(assignments, pairs, (a, b));
    if all.contains((a, b)) {
        let p = choose|p: int| 0 <= p < all.len() && all[p] == (a, b);
        if p < inner.len() {
            assert(inner[p] == (a, b));
        } else {
            assert(outer[p - inner.len()] == (a, b));
        }
    }
    if inner.contains((a, b)) {
        let p = choose|p: int| 0 <= p < inner.len() && inner[p] == (a, b);
        assert(all[p] == (a, b));
    }
    if outer.contains((a, b)) {
        let p = choose|p: int| 0 <= p < outer.len() && outer[p] == (a, b);
        assert(all[inner.len() + p] == (a, b));
    }
}

proof fn lemma_synthetic_within(
    n: nat,
    clusters: nat,
    targets: Seq<Seq<usize>>,
    pairs: Seq<(usize, usize)>,
)
    requires
        n <= usize::MAX,
        is_draw(n, clusters, targets, pairs),
    ensures
        edges_within(synthetic_edges(n, clusters, targets, pairs), n),
{
    let all = synthetic_edges(n, clusters, targets, pairs);
    let assignments = cluster_assignments(n, clusters);
    assert forall|p: int| 0 <= p < all.len() implies (#[trigger] all[p]).0 < n && all[p].1 < n by {
        let (a, b) = all[p];
        assert(all.contains((a, b)));
        lemma_synthetic_edge(n, clusters, targets, pairs, a, b);
        if a < n && targets[a as int].contains(b) {
            assert(is_target_draw(assignments, a as int, targets[a as int]));
            let j = choose|j: int|
                0 <= j < targets[a as int].len() && targets[a as int][j] == b;
            assert(targets[a as int][j] < assignments.len());
        } else {
            let j = choose|j: int| 0 <= j < pairs.len() && pairs[j] == (a, b);
            assert(pairs[j].0 < n);
        }
    }
}

/// Two nodes of a synthetic graph are neighbors if and only if they differ and one of them was
/// drawn as a target of the other, or they are in different clusters and were drawn as a pair.
pub proof fn law_synthetic_neighbors(
    n: nat,
    clusters: nat,
    targets: Seq<Seq<usize>>,
    pairs: Seq<(usize, usize)>,
    a: usize,
    b: usize,
)
    requires
        n <= usize::MAX,
        is_draw(n, clusters, targets, pairs),
        a < n,
        b < n,
    ensures
        graph_of(n, synthetic_edges(n, clusters, targets, pairs))[a as int].contains(b) == (a != b
            && (targets[a as int].contains(b) || targets[b as int].contains(a) || (given(pairs, a, b)
            && cluster_assignments(n, clusters)[a as int] != cluster_assignments(
            n,
            clusters,
        )[b as int]))),
{
    lemma_synthetic_within(n, clusters, targets, pairs);
    law_graph_of_edges(n, synthetic_edges(n, clusters, targets, pairs));
    lemma_synthetic_edge(n, clusters, targets, pairs, a, b);
    lemma_synthetic_edge(n, clusters, targets, pairs, b, a);
}

/// Between clusters there are bridges only: an edge between nodes of different clusters is one of
/// the drawn pairs, of which there is one for every twentieth node.
pub proof fn law_bridges_are_sparse(
    n: nat,
    clusters: nat,
    targets: Seq<Seq<usize>>,
    pairs: Seq<(usize, usize)>,
    a: usize,
    b: usize,
)
    requires
        n <= usize::MAX,
        is_draw(n, clusters, targets, pairs),
        a < n,
        b < n,
        cluster_assignments(n, clusters)[a as int] != cluster_assignments(n, clusters)[b as int],
        graph_of(n, synthetic_edges(n, clusters, targets, pairs))[a as int].contains(b),
    ensures
        given(pairs, a, b),
        pairs.len() == n / 20,
{
    let assignments = cluster_assignments(n, clusters);
    law_synthetic_neighbors(n, clusters, targets, pairs, a, b);
    assert(is_target_draw(assignments, a as int, targets[a as int]));
    assert(is_target_draw(assignments, b as int, targets[b as int]));
    if targets[a as int].contains(b) {
        let j = choose|j: int| 0 <= j < targets[a as int].len() && targets[a as int][j] == b;
        assert(assignments[targets[a as int][j] as int] == assignments[a as int]);
    }
    if targets[b as int].contains(a) {
        let j = choose|j: int| 0 <= j < targets[b as int].len() && targets[b as int][j] == a;
        assert(assignments[targets[b as int][j] as int] == assignments[b as int]);
    }
}

/// Whether two nodes are in different clusters.
pub open spec fn apart(assignments: Seq<usize>, a: usize, b: usize) -> bool {
    assignments[a as int] != assignments[b as int]
}

/// How many nodes behind node `a` its list holds that are in another cluster, if `across`, or in
/// the same one, if not.
pub open spec fn listed_behind(
    assignments: Seq<usize>,
    list: Seq<usize>,
    a: usize,
    across: bool,
) -> nat
    decreases list.len(),
{
    if list.len() == 0 {
        0
    } else {
        listed_behind(assignments, list.drop_last(), a, across) + (if a < list.last() && apart(
            assignments,
            a,
            list.last(),
        ) == across {
            1nat
        } else {
            0nat
        })
    }
}

/// The numbers of edges from each node to nodes behind it.
pub open spec fn edge_counts(
    assignments: Seq<usize>,
    adj: Seq<Seq<usize>>,
    across: bool,
) -> Seq<nat> {
    Seq::new(adj.len(), |a: int| listed_behind(assignments, adj[a], a as usize, across))
}

/// The number of edges between clusters, if `across`, or within them, if not. Each edge counts
/// once.
pub open spec fn edge_count(
    assignments: Seq<usize>,
    adj: Seq<Seq<usize>>,
    across: bool,
) -> nat {
    total(edge_counts(assignments, adj, across))
}

/// How many of some edges lead to another cluster, if `across`, or stay in one, if not.
spec fn count_edges(assignments: Seq<usize>, edges: Seq<(usize, usize)>, across: bool) -> nat
    decreases edges.len(),
{
    if edges.len() == 0 {
        0
    } else {
        count_edges(assignments, edges.drop_last(), across) + (if apart(
            assignments,
            edges.last().0,
            edges.last().1,
        ) == across {
            1nat
        } else {
            0nat
        })
    }
}

/// An edge adds one to the count of its kind at most.
proof fn lemma_connected_count(
    assignments: Seq<usize>,
    adj: Seq<Seq<usize>>,
    a: usize,
    b: usize,
    across: bool,
)
    requires
        a < adj.len() <= usize::MAX,
        b < adj.len(),
    ensures
        edge_count(assignments, connected(adj, a, b), across) <= edge_count(
            assignments,
            adj,
            across,
        ) + (if apart(assignments, a, b) == across {
            1nat
        } else {
            0nat
        }),
{
    if !(a == b || adj[a as int].contains(b)) {
        let after = connected(adj, a, b);
        let old_counts = edge_counts(assignments, adj, across);
        let new_counts = edge_counts(assignments, after, across);
        assert(adj[a as int].push(b).drop_last() =~= adj[a as int]);
        assert(adj[b as int].push(a).drop_last() =~= adj[b as int]);
        assert(after[a as int] == adj[a as int].push(b));
        assert(after[b as int] == adj[b as int].push(a));
        let first = if a < b {
            a as int
        } else {
            b as int
        };
        if apart(assignments, a, b) == across {
            assert(new_counts =~= old_counts.update(first, old_counts[first] + 1));
            lemma_total_update(old_counts, new_counts, first);
        } else {
            assert(new_counts =~= old_counts);
        }
    }
}

proof fn lemma_graph_count(
    assignments: Seq<usize>,
    n: nat,
    edges: Seq<(usize, usize)>,
    across: bool,
)
    requires
        n <= usize::MAX,
        edges_within(edges, n),
    ensures
        edge_count(assignments, graph_of(n, edges), across) <= count_edges(
            assignments,
            edges,
            across,
        ),
    decreases edges.len(),
{
    if edges.len() == 0 {
        let counts = edge_counts(assignments, graph_of(n, edges), across);
        lemma_total_zeros(counts);
    } else {
        let init = edges.drop_last();
        assert(edges[edges.len() - 1] == edges.last());
        assert(edges_within(init, n)) by {
            assert forall|p: int| 0 <= p < init.len() implies (#[trigger] init[p]).0 < n && init[p].1
                < n by {
                assert(init[p] == edges[p]);
            }
        }
        lemma_graph_count(assignments, n, init, across);
        law_graph_of_edges(n, init);
        lemma_connected_count(
            assignments,
            graph_of(n, init),
            edges.last().0,
            edges.last().1,
            across,
        );
    }
}

proof fn lemma_count_edges_sum(
    assignments: Seq<usize>,
    left: Seq<(usize, usize)>,
    right: Seq<(usize, usize)>,
    across: bool,
)
    ensures
        count_edges(assignments, left + right, across) == count_edges(assignments, left, across)
            + count_edges(assignments, right, across),
    decreases right.len(),
{
    if right.len() == 0 {
        assert(left + right =~= left);
    } else {
        assert((left + right).drop_last() =~= left + right.drop_last());
        assert((left + right).last() == right.last());
        lemma_count_edges_sum(assignments, left, right.drop_last(), across);
    }
}

proof fn lemma_count_edges_bound(
    assignments: Seq<usize>,
    edges: Seq<(usize, usize)>,
    across: bool,
)
    ensures
        count_edges(assignments, edges, across) <= edges.len(),
        (forall|p: int|
            0 <= p < edges.len() ==> apart(
                assignments,
                (#[trigger] edges[p]).0,
                edges[p].1,
            ) != across) ==> count_edges(assignments, edges, across) == 0,
    decreases edges.len(),
{
    if edges.len() > 0 {
        let init = edges.drop_last();
        lemma_count_edges_bound(assignments, init, across);
        assert(edges[edges.len() - 1] == edges.last());
        if forall|p: int|
            0 <= p < edges.len() ==> apart(
                assignments,
                (#[trigger] edges[p]).0,
                edges[p].1,
            ) != across {
            assert forall|p: int| 0 <= p < init.len() implies apart(
                assignments,
                (#[trigger] init[p]).0,
                init[p].1,
            ) != across by {
                assert(init[p] == edges[p]);
            }
        }
    }
}

proof fn lemma_target_edges_len(targets: Seq<Seq<usize>>)
    requires
        forall|a: int| 0 <= a < targets.len() ==> (#[trigger] targets[a]).len() <= 7,
    ensures
        target_edges(targets).len() <= 7 * targets.len(),
    decreases targets.len(),
{
    if targets.len() > 0 {
        let init = targets.drop_last();
        assert forall|a: int| 0 <= a < init.len() implies (#[trigger] init[a]).len() <= 7 by {
            assert(init[a] == targets[a]);
        }
        lemma_target_edges_len(init);
        assert(targets[targets.len() - 1] == targets.last());
    }
}

/// A synthetic graph has at most one edge between clusters for every twentieth node, and at most
/// seven within clusters for every node.
pub proof fn law_synthetic_edge_counts(
    n: nat,
    clusters: nat,
    targets: Seq<Seq<usize>>,
    pairs: Seq<(usize, usize)>,
)
    requires
        n <= usize::MAX,
        is_draw(n, clusters, targets, pairs),
    ensures
        edge_count(
            cluster_assignments(n, clusters),
            graph_of(n, synthetic_edges(n, clusters, targets, pairs)),
            true,
        ) <= n / 20,
        edge_count(
            cluster_assignments(n, clusters),
            graph_of(n, synthetic_edges(n, clusters, targets, pairs)),
            false,
        ) <= 7 * n,
{
    let assignments = cluster_assignments(n, clusters);
    let inner = target_edges(targets);
    let outer = bridges_among(assignments, pairs);
    let all = synthetic_edges(n, clusters, targets, pairs);
    lemma_synthetic_within(n, clusters, targets, pairs);
    lemma_graph_count(assignments, n, all, true);
    lemma_graph_count(assignments, n, all, false);
    lemma_count_edges_sum(assignments, inner, outer, true);
    lemma_count_edges_sum(assignments, inner, outer, false);
    lemma_bridges(assignments, pairs, (0, 0));
    assert forall|p: int| 0 <= p < inner.len() implies !apart(
        assignments,
        (#[trigger] inner[p]).0,
        inner[p].1,
    ) by {
        let (a, b) = inner[p];
        assert(inner.contains((a, b)));
        lemma_target_edges(targets, a, b);
        assert(is_target_draw(assignments, a as int, targets[a as int]));
        let j = choose|j: int| 0 <= j < targets[a as int].len() && targets[a as int][j] == b;
        assert(assignments[targets[a as int][j] as int] == assignments[a as int]);
    }
    assert forall|p: int| 0 <= p < outer.len() implies apart(
        assignments,
        (#[trigger] outer[p]).0,
        outer[p].1,
    ) by {
        assert(outer.contains(outer[p]));
        lemma_bridges(assignments, pairs, outer[p]);
    }
    lemma_count_edges_bound(assignments, inner, true);
    lemma_count_edges_bound(assignments, inner, false);
    lemma_count_edges_bound(assignments, outer, true);
    lemma_count_edges_bound(assignments, outer, false);
    assert forall|a: int| 0 <= a < targets.len() implies (#[trigger] targets[a]).len() <= 7 by {
        assert(is_target_draw(assignments, a, targets[a]));
    }
    lemma_target_edges_len(targets);
}

/// A graph made of edges can be swept for its conductance along any vector of numbers, as far as
/// its total volume can be told.
pub proof fn law_graph_of_edges_is_sweepable(
    n: nat,
    edges: Seq<(usize, usize)>,
    fiedler: Seq<Binary64>,
)
    requires
        n <= usize::MAX,
        edges_within(edges, n),
        fiedler.len() == n,
        all_numbers(fiedler),
        total(degrees(graph_of(n, edges))) <= usize::MAX,
    ensures
        sweepable(graph_of(n, edges), fiedler),
{
    law_graph_of_edges(n, edges);
    assert(fiedler.take(n as int) =~= fiedler);
}

/// The nodes fall into clusters in order: each cluster but the last has the `n / clusters` nodes
/// from `c * (n / clusters)` on, and the last has those that are left.
pub proof fn law_clusters_in_order(n: nat, clusters: nat, i: int)
    requires
        n <= usize::MAX,
        clusters <= usize::MAX,
        clusterable(n, clusters),
        0 <= i < n,
    ensures
        cluster_assignments(n, clusters).len() == n,
        cluster_assignments(n, clusters)[i] < clusters,
        cluster_assignments(n, clusters)[i] * (n / clusters) <= i,
        cluster_assignments(n, clusters)[i] < clusters - 1 ==> i < (cluster_assignments(
            n,
            clusters,
        )[i] + 1) * (n / clusters),
{
    lemma_cluster_of(n, clusters, i);
    let size = (n / clusters) as int;
    let q = i / size;
    let c = cluster_of(n, clusters, i);
    assert(q * size <= i < (q + 1) * size) by (nonlinear_arith)
        requires
            q == i / size,
            size > 0,
            i >= 0,
    ;
    assert(c * size <= q * size) by (nonlinear_arith)
        requires
            c <= q,
            size > 0,
    ;
}

/// What is drawn for a node are nodes of its own cluster: at least three and at most seven, or as
/// many as there are others in the cluster where there are fewer. A pair of nodes is drawn for every
/// twentieth node.
pub proof fn law_draw(
    n: nat,
    clusters: nat,
    targets: Seq<Seq<usize>>,
    pairs: Seq<(usize, usize)>,
    a: int,
)
    requires
        n <= usize::MAX,
        is_draw(n, clusters, targets, pairs),
        0 <= a < n,
    ensures
        targets.len() == n,
        pairs.len() == n / 20,
        forall|p: int|
            0 <= p < pairs.len() ==> (#[trigger] pairs[p]).0 < n && pairs[p].1 < n,
        forall|j: int|
            0 <= j < targets[a].len() ==> (#[trigger] targets[a][j]) < n && cluster_assignments(
                n,
                clusters,
            )[targets[a][j] as int] == cluster_assignments(n, clusters)[a],
        targets[a].len() <= 7,
        ({
            let members = Set::new(
                |i: int|
                    0 <= i < n && cluster_assignments(n, clusters)[i] == cluster_assignments(
                        n,
                        clusters,
                    )[a],
            ).len();
            &&& targets[a].len() + 1 <= members
            &&& targets[a].len() < 3 ==> targets[a].len() + 1 == members
        }),
{
    let assignments = cluster_assignments(n, clusters);
    assert(is_target_draw(assignments, a, targets[a]));
    let c = assignments[a];
    law_members(assignments, c);
    assert(members_of(assignments, c).contains(a as usize));
    law_size_counts_members(assignments, c);
    lemma_occurrence_set(assignments, c);
    let found = Set::new(|i: int| 0 <= i < assignments.len() && assignments[i] == c);
    assert(Set::new(
        |i: int|
            0 <= i < n && cluster_assignments(n, clusters)[i] == cluster_assignments(
                n,
                clusters,
            )[a],
    ) =~= found);
}

/// One more edge is added behind all that is there: the lists keep what they hold, in order, and
/// only those of its two nodes grow, each by the other node.
pub proof fn law_one_more_edge(n: nat, edges: Seq<(usize, usize)>, a: usize, b: usize)
    requires
        n <= usize::MAX,
        edges_within(edges, n),
        a < n,
        b < n,
    ensures
        a == b || graph_of(n, edges)[a as int].contains(b) ==> graph_of(n, edges.push((a, b)))
            == graph_of(n, edges),
        a != b && !graph_of(n, edges)[a as int].contains(b) ==> {
            &&& graph_of(n, edges.push((a, b)))[a as int] == graph_of(n, edges)[a as int].push(b)
            &&& graph_of(n, edges.push((a, b)))[b as int] == graph_of(n, edges)[b as int].push(a)
            &&& forall|i: int|
                0 <= i < n && i != a && i != b ==> #[trigger] graph_of(n, edges.push((a, b)))[i]
                    == graph_of(n, edges)[i]
        },
{
    assert(edges.push((a, b)).drop_last() =~= edges);
    law_graph_of_edges(n, edges);
}

/// A generated graph is undirected, without loops or parallel edges, and has at most one edge
/// between clusters for every twentieth node and at most seven within clusters for every node.
pub proof fn law_generated_graph(n: nat, clusters: nat, adj: Seq<Seq<usize>>)
    requires
        n <= usize::MAX,
        is_synthetic(n, clusters, adj),
    ensures
        adj.len() == n,
        undirected(adj),
        loopless(adj),
        edge_count(cluster_assignments(n, clusters), adj, true) <= n / 20,
        edge_count(cluster_assignments(n, clusters), adj, false) <= 7 * n,
{
    let (targets, pairs) = choose|targets: Seq<Seq<usize>>, pairs: Seq<(usize, usize)>| #[trigger]
        is_draw(n, clusters, targets, pairs) && adj == graph_of(
            n,
            synthetic_edges(n, clusters, targets, pairs),
        );
    lemma_synthetic_within(n, clusters, targets, pairs);
    law_graph_of_edges(n, synthetic_edges(n, clusters, targets, pairs));
    law_synthetic_edge_counts(n, clusters, targets, pairs);
}

} // verus!
