//! Paths and connected components of a graph, and what the Laplacian tells of them.

use vstd::prelude::*;

use crate::laplacian_laws::{law_components_vanish, same_on_neighbors, takes_to_zero};
use crate::matrix::{are_matrices, covers, difference_rows, linked, IntegerMatrix};

verus! {

/// The nodes at `p` and behind it on a path are neighbors.
pub open spec fn is_step(adj: Seq<Seq<usize>>, path: Seq<int>, p: int) -> bool {
    linked(adj, path[p], path[p + 1])
}

/// A path among the first `n` nodes leads from node `i` to node `j`, from neighbor to neighbor.
pub open spec fn is_path(adj: Seq<Seq<usize>>, n: nat, path: Seq<int>, i: int, j: int) -> bool {
    &&& path.len() > 0
    &&& path[0] == i
    &&& path.last() == j
    &&& forall|p: int| 0 <= p < path.len() ==> 0 <= (#[trigger] path[p]) < n
    &&& forall|p: int| 0 <= p < path.len() - 1 ==> #[trigger] is_step(adj, path, p)
}

/// Some path joins two nodes.
pub open spec fn joined(adj: Seq<Seq<usize>>, n: nat, i: int, j: int) -> bool {
    exists|path: Seq<int>| #[trigger] is_path(adj, n, path, i, j)
}

/// Any two of the first `n` nodes are joined by a path.
pub open spec fn is_connected(adj: Seq<Seq<usize>>, n: nat) -> bool {
    forall|i: int, j: int| 0 <= i < n && 0 <= j < n ==> #[trigger] joined(adj, n, i, j)
}

/// Node `c` is the lowest one that node `i` is joined with.
pub open spec fn is_lowest_joined(adj: Seq<Seq<usize>>, n: nat, i: int, c: int) -> bool {
    &&& 0 <= c < n
    &&& joined(adj, n, i, c)
    &&& forall|b: int| 0 <= b < c ==> !#[trigger] joined(adj, n, i, b)
}

/// The connected component of a node, named by its lowest node.
pub open spec fn component_of(adj: Seq<Seq<usize>>, n: nat, i: int) -> int {
    choose|c: int| is_lowest_joined(adj, n, i, c)
}

/// All entries of a vector are equal.
pub open spec fn is_constant(x: Seq<int>) -> bool {
    forall|i: int, j: int|
        #![trigger x[i], x[j]]
        0 <= i < x.len() && 0 <= j < x.len() ==> x[i] == x[j]
}

proof fn lemma_joined_itself(adj: Seq<Seq<usize>>, n: nat, i: int)
    requires
        0 <= i < n,
    ensures
        joined(adj, n, i, i),
{
    assert(is_path(adj, n, seq![i], i, i));
}

proof fn lemma_joined_neighbor(adj: Seq<Seq<usize>>, n: nat, i: int, j: int, k: int)
    requires
        joined(adj, n, i, j),
        linked(adj, j, k),
        0 <= k < n,
    ensures
        joined(adj, n, i, k),
{
    let path = choose|path: Seq<int>| #[trigger] is_path(adj, n, path, i, j);
    let longer = path.push(k);
    assert forall|p: int| 0 <= p < longer.len() - 1 implies #[trigger] is_step(adj, longer, p) by {
        if p < path.len() - 1 {
            assert(is_step(adj, path, p));
        }
    }
    assert(is_path(adj, n, longer, i, k));
}

proof fn lemma_path_prefix(adj: Seq<Seq<usize>>, n: nat, path: Seq<int>, i: int, j: int)
    requires
        is_path(adj, n, path, i, j),
        path.len() > 1,
    ensures
        is_path(adj, n, path.drop_last(), i, path[path.len() - 2]),
        linked(adj, path[path.len() - 2], j),
        0 <= j < n,
        0 <= path[path.len() - 2] < n,
{
    let init = path.drop_last();
    assert forall|p: int| 0 <= p < init.len() - 1 implies #[trigger] is_step(adj, init, p) by {
        assert(is_step(adj, path, p));
    }
    assert(is_step(adj, path, path.len() - 2));
    assert(path[path.len() - 1] == j);
}

proof fn lemma_joined_along(
    adj: Seq<Seq<usize>>,
    n: nat,
    path: Seq<int>,
    h: int,
    i: int,
    j: int,
)
    requires
        joined(adj, n, h, i),
        is_path(adj, n, path, i, j),
    ensures
        joined(adj, n, h, j),
    decreases path.len(),
{
    if path.len() > 1 {
        lemma_path_prefix(adj, n, path, i, j);
        let k = path[path.len() - 2];
        lemma_joined_along(adj, n, path.drop_last(), h, i, k);
        lemma_joined_neighbor(adj, n, h, k, j);
    }
}

proof fn lemma_joined_transitive(adj: Seq<Seq<usize>>, n: nat, h: int, i: int, j: int)
    requires
        joined(adj, n, h, i),
        joined(adj, n, i, j),
    ensures
        joined(adj, n, h, j),
{
    let path = choose|path: Seq<int>| #[trigger] is_path(adj, n, path, i, j);
    lemma_joined_along(adj, n, path, h, i, j);
}

proof fn lemma_joined_back_along(adj: Seq<Seq<usize>>, n: nat, path: Seq<int>, i: int, j: int)
    requires
        is_path(adj, n, path, i, j),
    ensures
        joined(adj, n, j, i),
    decreases path.len(),
{
    assert(path[path.len() - 1] == j);
    lemma_joined_itself(adj, n, j);
    if path.len() > 1 {
        lemma_path_prefix(adj, n, path, i, j);
        let k = path[path.len() - 2];
        lemma_joined_back_along(adj, n, path.drop_last(), i, k);
        assert(linked(adj, j, k));
        lemma_joined_neighbor(adj, n, j, j, k);
        lemma_joined_transitive(adj, n, j, k, i);
    }
}

proof fn lemma_joined_symmetric(adj: Seq<Seq<usize>>, n: nat, i: int, j: int)
    requires
        joined(adj, n, i, j),
    ensures
        joined(adj, n, j, i),
{
    let path = choose|path: Seq<int>| #[trigger] is_path(adj, n, path, i, j);
    lemma_joined_back_along(adj, n, path, i, j);
}

proof fn lemma_lowest_joined(adj: Seq<Seq<usize>>, n: nat, i: int, c: int)
    requires
        0 <= c < n,
        joined(adj, n, i, c),
    ensures
        exists|b: int| is_lowest_joined(adj, n, i, b),
    decreases c,
{
    if exists|b: int| 0 <= b < c && #[trigger] joined(adj, n, i, b) {
        let b = choose|b: int| 0 <= b < c && #[trigger] joined(adj, n, i, b);
        lemma_lowest_joined(adj, n, i, b);
    } else {
        assert(is_lowest_joined(adj, n, i, c));
    }
}

/// Each node is joined with the one that its component is named by, and two nodes are joined if and
/// only if they are in the same component.
pub proof fn law_components(adj: Seq<Seq<usize>>, n: nat, i: int, j: int)
    requires
        0 <= i < n,
        0 <= j < n,
    ensures
        0 <= component_of(adj, n, i) < n,
        joined(adj, n, i, component_of(adj, n, i)),
        joined(adj, n, i, j) == (component_of(adj, n, i) == component_of(adj, n, j)),
{
    lemma_joined_itself(adj, n, i);
    lemma_joined_itself(adj, n, j);
    lemma_lowest_joined(adj, n, i, i);
    lemma_lowest_joined(adj, n, j, j);
    let b = component_of(adj, n, i);
    let c = component_of(adj, n, j);
    assert(is_lowest_joined(adj, n, i, b));
    assert(is_lowest_joined(adj, n, j, c));
    if joined(adj, n, i, j) {
        lemma_joined_symmetric(adj, n, i, j);
        lemma_joined_transitive(adj, n, i, j, c);
        lemma_joined_transitive(adj, n, j, i, b);
    }
    if b == c {
        lemma_joined_symmetric(adj, n, j, c);
        lemma_joined_transitive(adj, n, i, b, j);
    }
}

proof fn lemma_same_along(
    adj: Seq<Seq<usize>>,
    n: nat,
    x: Seq<int>,
    path: Seq<int>,
    i: int,
    j: int,
)
    requires
        same_on_neighbors(adj, n, x),
        is_path(adj, n, path, i, j),
    ensures
        x[i] == x[j],
    decreases path.len(),
{
    if path.len() > 1 {
        lemma_path_prefix(adj, n, path, i, j);
        lemma_same_along(adj, n, x, path.drop_last(), i, path[path.len() - 2]);
    }
}

proof fn lemma_same_on_joined(adj: Seq<Seq<usize>>, n: nat, x: Seq<int>, i: int, j: int)
    requires
        same_on_neighbors(adj, n, x),
        joined(adj, n, i, j),
    ensures
        x[i] == x[j],
{
    let path = choose|path: Seq<int>| #[trigger] is_path(adj, n, path, i, j);
    lemma_same_along(adj, n, x, path, i, j);
}

/// The Laplacian takes a vector to zero if and only if each node has the entry of the node that its
/// component is named by.
pub proof fn law_kernel_by_components(
    adj: Seq<Seq<usize>>,
    n: nat,
    a: IntegerMatrix,
    d: IntegerMatrix,
    x: Seq<int>,
)
    requires
        covers(adj, n),
        are_matrices(adj, n, a, d),
    ensures
        takes_to_zero(difference_rows(d, a), x) == (forall|i: int|
            0 <= i < n ==> #[trigger] x[i] == x[component_of(adj, n, i)]),
{
    law_components_vanish(adj, n, a, d, x);
    if same_on_neighbors(adj, n, x) {
        assert forall|i: int| 0 <= i < n implies #[trigger] x[i] == x[component_of(
            adj,
            n,
            i,
        )] by {
            law_components(adj, n, i, i);
            lemma_same_on_joined(adj, n, x, i, component_of(adj, n, i));
        }
    }
    if forall|i: int| 0 <= i < n ==> #[trigger] x[i] == x[component_of(adj, n, i)] {
        assert forall|i: int, j: int|
            0 <= i < n && 0 <= j < n && #[trigger] linked(adj, i, j) implies x[i] == x[j] by {
            lemma_joined_itself(adj, n, i);
            lemma_joined_neighbor(adj, n, i, i, j);
            law_components(adj, n, i, j);
        }
    }
}

/// The entries of a vector that is made of one number per component.
pub open spec fn spread(adj: Seq<Seq<usize>>, n: nat, numbers: spec_fn(int) -> int) -> Seq<int> {
    Seq::new(n, |i: int| numbers(component_of(adj, n, i)))
}

/// Whatever number is chosen for each component, the Laplacian takes the vector that they make to
/// zero.
pub proof fn law_any_number_per_component(
    adj: Seq<Seq<usize>>,
    n: nat,
    a: IntegerMatrix,
    d: IntegerMatrix,
    numbers: spec_fn(int) -> int,
)
    requires
        covers(adj, n),
        are_matrices(adj, n, a, d),
    ensures
        takes_to_zero(difference_rows(d, a), spread(adj, n, numbers)),
{
    let x = spread(adj, n, numbers);
    assert forall|i: int| 0 <= i < n implies #[trigger] x[i] == x[component_of(adj, n, i)] by {
        law_components(adj, n, i, i);
        law_components(adj, n, i, component_of(adj, n, i));
    }
    law_kernel_by_components(adj, n, a, d, x);
}

/// The Laplacian takes a vector that is not constant to zero if and only if the graph is not
/// connected: some two nodes are joined by no path.
pub proof fn law_kernel_tells_connectivity(
    adj: Seq<Seq<usize>>,
    n: nat,
    a: IntegerMatrix,
    d: IntegerMatrix,
)
    requires
        covers(adj, n),
        are_matrices(adj, n, a, d),
    ensures
        (exists|x: Seq<int>|
            x.len() == n && !is_constant(x) && #[trigger] takes_to_zero(difference_rows(d, a), x))
            == !is_connected(adj, n),
{
    let rows = difference_rows(d, a);
    if exists|x: Seq<int>| x.len() == n && !is_constant(x) && #[trigger] takes_to_zero(rows, x) {
        let x = choose|x: Seq<int>|
            x.len() == n && !is_constant(x) && #[trigger] takes_to_zero(rows, x);
        law_components_vanish(adj, n, a, d, x);
        if is_connected(adj, n) {
            assert forall|i: int, j: int|
                #![trigger x[i], x[j]]
                0 <= i < x.len() && 0 <= j < x.len() implies x[i] == x[j] by {
                assert(joined(adj, n, i, j));
                lemma_same_on_joined(adj, n, x, i, j);
            }
        }
    }
    if !is_connected(adj, n) {
        let (i, j) = choose|i: int, j: int|
            0 <= i < n && 0 <= j < n && !#[trigger] joined(adj, n, i, j);
        let x = Seq::new(
            n,
            |k: int|
                if joined(adj, n, i, k) {
                    1int
                } else {
                    0int
                },
        );
        lemma_joined_itself(adj, n, i);
        assert(x[i] != x[j]);
        assert forall|p: int, q: int|
            0 <= p < n && 0 <= q < n && #[trigger] linked(adj, p, q) implies x[p] == x[q] by {
            assert(linked(adj, q, p));
            if joined(adj, n, i, p) {
                lemma_joined_neighbor(adj, n, i, p, q);
            }
            if joined(adj, n, i, q) {
                lemma_joined_neighbor(adj, n, i, q, p);
            }
        }
        law_components_vanish(adj, n, a, d, x);
        assert(takes_to_zero(rows, x));
    }
}

} // verus!
