//! Laws of the graph Laplacian. They hold for all lists of neighbors: an edge that one side alone
//! lists, a neighbor that is listed twice, or one that does not exist makes no difference.

use vstd::prelude::*;

use crate::matrix::{
    adjacency_rows, are_matrices, covers, difference_rows, lemma_neighbor_count_fits, linked,
    matrix_rows, neighbor_count, IntegerMatrix,
};

verus! {

/// The sum of the entries of a row.
pub open spec fn row_sum(row: Seq<i64>) -> int
    decreases row.len(),
{
    if row.len() == 0 {
        0
    } else {
        row_sum(row.drop_last()) + row.last()
    }
}

/// The entries of a column, from the top.
pub open spec fn column(rows: Seq<Seq<i64>>, j: int) -> Seq<i64> {
    Seq::new(rows.len(), |i: int| rows[i][j])
}

/// The sum of the products of the entries of a row and those of a vector.
pub open spec fn dot(row: Seq<i64>, x: Seq<int>) -> int
    decreases row.len(),
{
    if row.len() == 0 {
        0
    } else {
        dot(row.drop_last(), x) + row.last() * x[row.len() - 1]
    }
}

/// The quadratic form of a matrix: the vector times the matrix times the vector.
pub open spec fn quadratic_form(rows: Seq<Seq<i64>>, x: Seq<int>) -> int
    decreases rows.len(),
{
    if rows.len() == 0 {
        0
    } else {
        quadratic_form(rows.drop_last(), x) + x[rows.len() - 1] * dot(rows.last(), x)
    }
}

/// The square of a number.
pub open spec fn square(x: int) -> int {
    x * x
}

/// The squares of the differences of a vector along the edges from node `i` to the first `m` nodes,
/// summed up.
pub open spec fn node_squares(adj: Seq<Seq<usize>>, x: Seq<int>, i: int, m: nat) -> int
    decreases m,
{
    if m == 0 {
        0
    } else {
        node_squares(adj, x, i, (m - 1) as nat) + (if linked(adj, i, m - 1) {
            square(x[i] - x[m - 1])
        } else {
            0
        })
    }
}

/// The squares of the differences of a vector along the edges among the first `n` nodes, each edge
/// taken once, summed up.
pub open spec fn edge_squares(adj: Seq<Seq<usize>>, x: Seq<int>, n: nat) -> int
    decreases n,
{
    if n == 0 {
        0
    } else {
        edge_squares(adj, x, (n - 1) as nat) + node_squares(adj, x, n - 1, (n - 1) as nat)
    }
}

/// Neighbors among the first `n` nodes have the same entry in a vector, and so have all nodes of a
/// connected component.
pub open spec fn same_on_neighbors(adj: Seq<Seq<usize>>, n: nat, x: Seq<int>) -> bool {
    forall|i: int, j: int|
        0 <= i < n && 0 <= j < n && #[trigger] linked(adj, i, j) ==> x[i] == x[j]
}

/// A matrix takes a vector to zero.
pub open spec fn takes_to_zero(rows: Seq<Seq<i64>>, x: Seq<int>) -> bool {
    forall|i: int| 0 <= i < rows.len() ==> dot(#[trigger] rows[i], x) == 0
}

/// The adjacency matrix is symmetric.
pub proof fn law_adjacency_symmetric(adj: Seq<Seq<usize>>, n: nat, i: int, j: int)
    requires
        0 <= i < n,
        0 <= j < n,
    ensures
        adjacency_rows(adj, n)[i][j] == adjacency_rows(adj, n)[j][i],
{
}

/// One entry of the Laplacian.
proof fn lemma_entry(
    adj: Seq<Seq<usize>>,
    n: nat,
    a: IntegerMatrix,
    d: IntegerMatrix,
    i: int,
    j: int,
)
    requires
        covers(adj, n),
        are_matrices(adj, n, a, d),
        0 <= i < n,
        0 <= j < n,
    ensures
        difference_rows(d, a)[i][j] == (if i == j {
            neighbor_count(adj, i, n) as int
        } else {
            0
        }) - (if linked(adj, i, j) {
            1int
        } else {
            0
        }),
{
    lemma_neighbor_count_fits(adj, i, n, n);
}

/// The Laplacian is symmetric.
pub proof fn law_laplacian_symmetric(
    adj: Seq<Seq<usize>>,
    n: nat,
    a: IntegerMatrix,
    d: IntegerMatrix,
    i: int,
    j: int,
)
    requires
        covers(adj, n),
        are_matrices(adj, n, a, d),
        0 <= i < n,
        0 <= j < n,
    ensures
        difference_rows(d, a)[i][j] == difference_rows(d, a)[j][i],
{
    lemma_entry(adj, n, a, d, i, j);
    lemma_entry(adj, n, a, d, j, i);
}

proof fn lemma_row_sum(
    adj: Seq<Seq<usize>>,
    n: nat,
    a: IntegerMatrix,
    d: IntegerMatrix,
    i: int,
    m: nat,
)
    requires
        covers(adj, n),
        are_matrices(adj, n, a, d),
        0 <= i < n,
        m <= n,
    ensures
        row_sum(difference_rows(d, a)[i].take(m as int)) == (if i < m {
            neighbor_count(adj, i, n) as int
        } else {
            0
        }) - neighbor_count(adj, i, m),
    decreases m,
{
    let row = difference_rows(d, a)[i];
    if m > 0 {
        lemma_row_sum(adj, n, a, d, i, (m - 1) as nat);
        assert(row.take(m as int).drop_last() =~= row.take(m - 1));
        lemma_entry(adj, n, a, d, i, m - 1);
    }
}

/// Each row of the Laplacian sums to zero.
pub proof fn law_laplacian_rows_vanish(
    adj: Seq<Seq<usize>>,
    n: nat,
    a: IntegerMatrix,
    d: IntegerMatrix,
    i: int,
)
    requires
        covers(adj, n),
        are_matrices(adj, n, a, d),
        0 <= i < n,
    ensures
        row_sum(difference_rows(d, a)[i]) == 0,
{
    let row = difference_rows(d, a)[i];
    lemma_row_sum(adj, n, a, d, i, n);
    assert(row.take(n as int) =~= row);
}

/// Each column of the Laplacian sums to zero.
pub proof fn law_laplacian_columns_vanish(
    adj: Seq<Seq<usize>>,
    n: nat,
    a: IntegerMatrix,
    d: IntegerMatrix,
    j: int,
)
    requires
        covers(adj, n),
        are_matrices(adj, n, a, d),
        0 <= j < n,
    ensures
        row_sum(column(difference_rows(d, a), j)) == 0,
{
    let rows = difference_rows(d, a);
    assert(column(rows, j) =~= rows[j]) by {
        assert forall|i: int| 0 <= i < n implies rows[i][j] == rows[j][i] by {
            law_laplacian_symmetric(adj, n, a, d, i, j);
        }
    }
    law_laplacian_rows_vanish(adj, n, a, d, j);
}

/// By how much the entry of node `i` in a vector exceeds those of its neighbors among the first `m`
/// nodes, summed up.
spec fn excess(adj: Seq<Seq<usize>>, x: Seq<int>, i: int, m: nat) -> int
    decreases m,
{
    if m == 0 {
        0
    } else {
        excess(adj, x, i, (m - 1) as nat) + (if linked(adj, i, m - 1) {
            x[i] - x[m - 1]
        } else {
            0
        })
    }
}

proof fn lemma_dot_prefix(
    adj: Seq<Seq<usize>>,
    n: nat,
    a: IntegerMatrix,
    d: IntegerMatrix,
    x: Seq<int>,
    i: int,
    m: nat,
)
    requires
        covers(adj, n),
        are_matrices(adj, n, a, d),
        0 <= i < n,
        m <= n,
    ensures
        dot(difference_rows(d, a)[i].take(m as int), x) == (if i < m {
            neighbor_count(adj, i, n) * x[i]
        } else {
            0
        }) - neighbor_count(adj, i, m) * x[i] + excess(adj, x, i, m),
    decreases m,
{
    let row = difference_rows(d, a)[i];
    let y = x[i];
    if m > 0 {
        lemma_dot_prefix(adj, n, a, d, x, i, (m - 1) as nat);
        assert(row.take(m as int).drop_last() =~= row.take(m - 1));
        lemma_entry(adj, n, a, d, i, m - 1);
        let all = neighbor_count(adj, i, n) as int;
        let count = neighbor_count(adj, i, (m - 1) as nat) as int;
        let z = x[m - 1];
        assert((count + 1) * y == count * y + y) by (nonlinear_arith);
        assert((all - 1) * z == all * z - z) by (nonlinear_arith);
        assert((0 - 1) * z == -z) by (nonlinear_arith);
        assert(0 * z == 0) by (nonlinear_arith);
    } else {
        assert(0 * y == 0) by (nonlinear_arith);
    }
}

/// What the Laplacian makes of a vector at a node: by how much its entry exceeds those of its
/// neighbors, summed up.
proof fn lemma_dot(
    adj: Seq<Seq<usize>>,
    n: nat,
    a: IntegerMatrix,
    d: IntegerMatrix,
    x: Seq<int>,
    i: int,
)
    requires
        covers(adj, n),
        are_matrices(adj, n, a, d),
        0 <= i < n,
    ensures
        dot(difference_rows(d, a)[i], x) == excess(adj, x, i, n),
{
    let row = difference_rows(d, a)[i];
    lemma_dot_prefix(adj, n, a, d, x, i, n);
    assert(row.take(n as int) =~= row);
}

/// The entries of the first `m` nodes, each times its excess over the neighbors among the first `w`
/// nodes, summed up.
spec fn weighted_excess(adj: Seq<Seq<usize>>, x: Seq<int>, m: nat, w: nat) -> int
    decreases m,
{
    if m == 0 {
        0
    } else {
        weighted_excess(adj, x, (m - 1) as nat, w) + x[m - 1] * excess(adj, x, m - 1, w)
    }
}

/// What the node `w` adds to the weighted excess of the first `m` nodes.
spec fn added_excess(adj: Seq<Seq<usize>>, x: Seq<int>, m: nat, w: int) -> int
    decreases m,
{
    if m == 0 {
        0
    } else {
        added_excess(adj, x, (m - 1) as nat, w) + (if linked(adj, m - 1, w) {
            x[m - 1] * (x[m - 1] - x[w])
        } else {
            0
        })
    }
}

proof fn lemma_weighted_step(adj: Seq<Seq<usize>>, x: Seq<int>, m: nat, w: nat)
    ensures
        weighted_excess(adj, x, m, w + 1) == weighted_excess(adj, x, m, w) + added_excess(
            adj,
            x,
            m,
            w as int,
        ),
    decreases m,
{
    if m > 0 {
        lemma_weighted_step(adj, x, (m - 1) as nat, w);
        let y = x[m - 1];
        let before = excess(adj, x, m - 1, w);
        let step = y - x[w as int];
        assert(y * (before + step) == y * before + y * step) by (nonlinear_arith);
    }
}

proof fn lemma_added_squares(adj: Seq<Seq<usize>>, x: Seq<int>, m: nat, w: int)
    ensures
        added_excess(adj, x, m, w) + x[w] * excess(adj, x, w, m) == node_squares(adj, x, w, m),
    decreases m,
{
    let z = x[w];
    if m > 0 {
        lemma_added_squares(adj, x, (m - 1) as nat, w);
        let y = x[m - 1];
        let before = excess(adj, x, w, (m - 1) as nat);
        assert(z * (before + (z - y)) == z * before + z * (z - y)) by (nonlinear_arith);
        assert(y * (y - z) + z * (z - y) == (z - y) * (z - y)) by (nonlinear_arith);
    } else {
        assert(z * 0 == 0) by (nonlinear_arith);
    }
}

proof fn lemma_weighted_squares(adj: Seq<Seq<usize>>, x: Seq<int>, n: nat)
    ensures
        weighted_excess(adj, x, n, n) == edge_squares(adj, x, n),
    decreases n,
{
    if n > 0 {
        let w = (n - 1) as nat;
        lemma_weighted_squares(adj, x, w);
        lemma_weighted_step(adj, x, w, w);
        lemma_added_squares(adj, x, w, w as int);
        assert(excess(adj, x, w as int, n) == excess(adj, x, w as int, w));
    }
}

proof fn lemma_form_prefix(
    adj: Seq<Seq<usize>>,
    n: nat,
    a: IntegerMatrix,
    d: IntegerMatrix,
    x: Seq<int>,
    m: nat,
)
    requires
        covers(adj, n),
        are_matrices(adj, n, a, d),
        m <= n,
    ensures
        quadratic_form(difference_rows(d, a).take(m as int), x) == weighted_excess(adj, x, m, n),
    decreases m,
{
    let rows = difference_rows(d, a);
    if m > 0 {
        lemma_form_prefix(adj, n, a, d, x, (m - 1) as nat);
        assert(rows.take(m as int).drop_last() =~= rows.take(m - 1));
        lemma_dot(adj, n, a, d, x, m - 1);
    }
}

proof fn lemma_square(x: int)
    ensures
        square(x) >= 0,
        square(x) == 0 ==> x == 0,
{
    assert(x * x >= 0 && (x * x == 0 ==> x == 0)) by (nonlinear_arith);
}

proof fn lemma_node_squares(adj: Seq<Seq<usize>>, x: Seq<int>, i: int, m: nat)
    ensures
        node_squares(adj, x, i, m) >= 0,
        forall|j: int|
            0 <= j < m && #[trigger] linked(adj, i, j) ==> square(x[i] - x[j]) <= node_squares(
                adj,
                x,
                i,
                m,
            ),
    decreases m,
{
    if m > 0 {
        lemma_node_squares(adj, x, i, (m - 1) as nat);
        lemma_square(x[i] - x[m - 1]);
    }
}

proof fn lemma_edge_squares(adj: Seq<Seq<usize>>, x: Seq<int>, n: nat)
    ensures
        edge_squares(adj, x, n) >= 0,
        forall|i: int, j: int|
            0 <= j < i < n && #[trigger] linked(adj, i, j) ==> square(x[i] - x[j])
                <= edge_squares(adj, x, n),
    decreases n,
{
    if n > 0 {
        lemma_edge_squares(adj, x, (n - 1) as nat);
        lemma_node_squares(adj, x, n - 1, (n - 1) as nat);
    }
}

/// The quadratic form of the Laplacian is the sum of the squared differences along the edges. So it
/// is never negative.
pub proof fn law_quadratic_form(
    adj: Seq<Seq<usize>>,
    n: nat,
    a: IntegerMatrix,
    d: IntegerMatrix,
    x: Seq<int>,
)
    requires
        covers(adj, n),
        are_matrices(adj, n, a, d),
    ensures
        quadratic_form(difference_rows(d, a), x) == edge_squares(adj, x, n),
        quadratic_form(difference_rows(d, a), x) >= 0,
{
    let rows = difference_rows(d, a);
    lemma_form_prefix(adj, n, a, d, x, n);
    assert(rows.take(n as int) =~= rows);
    lemma_weighted_squares(adj, x, n);
    lemma_edge_squares(adj, x, n);
}

proof fn lemma_no_excess(adj: Seq<Seq<usize>>, n: nat, x: Seq<int>, i: int, m: nat)
    requires
        same_on_neighbors(adj, n, x),
        0 <= i < n,
        m <= n,
    ensures
        excess(adj, x, i, m) == 0,
    decreases m,
{
    if m > 0 {
        lemma_no_excess(adj, n, x, i, (m - 1) as nat);
    }
}

proof fn lemma_form_zero(rows: Seq<Seq<i64>>, x: Seq<int>)
    requires
        takes_to_zero(rows, x),
    ensures
        quadratic_form(rows, x) == 0,
    decreases rows.len(),
{
    if rows.len() > 0 {
        let init = rows.drop_last();
        assert forall|i: int| 0 <= i < init.len() implies dot(#[trigger] init[i], x) == 0 by {
            assert(init[i] == rows[i]);
        }
        lemma_form_zero(init, x);
        assert(rows[rows.len() - 1] == rows.last());
        let y = x[rows.len() - 1];
        assert(y * 0 == 0) by (nonlinear_arith);
    }
}

/// The Laplacian takes a vector to zero if and only if the vector is constant on each connected
/// component.
pub proof fn law_components_vanish(
    adj: Seq<Seq<usize>>,
    n: nat,
    a: IntegerMatrix,
    d: IntegerMatrix,
    x: Seq<int>,
)
    requires
        covers(adj, n),
        are_matrices(adj, n, a, d),
    ensures
        takes_to_zero(difference_rows(d, a), x) == same_on_neighbors(adj, n, x),
{
    let rows = difference_rows(d, a);
    if same_on_neighbors(adj, n, x) {
        assert forall|i: int| 0 <= i < rows.len() implies dot(#[trigger] rows[i], x) == 0 by {
            lemma_dot(adj, n, a, d, x, i);
            lemma_no_excess(adj, n, x, i, n);
        }
    }
    if takes_to_zero(rows, x) {
        lemma_form_zero(rows, x);
        law_quadratic_form(adj, n, a, d, x);
        lemma_edge_squares(adj, x, n);
        assert forall|i: int, j: int|
            0 <= i < n && 0 <= j < n && #[trigger] linked(adj, i, j) implies x[i] == x[j] by {
            lemma_square(x[i] - x[j]);
            lemma_square(x[j] - x[i]);
            assert(linked(adj, j, i));
        }
    }
}

proof fn lemma_neighbor_set(adj: Seq<Seq<usize>>, i: int, m: nat)
    requires
        0 <= i < adj.len(),
        m <= adj.len(),
    ensures
        Set::new(
            |k: int|
                0 <= k < m && (adj[i].contains(k as usize) || adj[k].contains(i as usize)),
        ).finite(),
        Set::new(
            |k: int|
                0 <= k < m && (adj[i].contains(k as usize) || adj[k].contains(i as usize)),
        ).len() == neighbor_count(adj, i, m),
    decreases m,
{
    let found = Set::new(
        |k: int| 0 <= k < m && (adj[i].contains(k as usize) || adj[k].contains(i as usize)),
    );
    if m == 0 {
        assert(found =~= Set::empty());
    } else {
        lemma_neighbor_set(adj, i, (m - 1) as nat);
        let before = Set::new(
            |k: int|
                0 <= k < (m - 1) as nat && (adj[i].contains(k as usize) || adj[k].contains(
                    i as usize,
                )),
        );
        if linked(adj, i, m - 1) {
            assert(found =~= before.insert(m - 1));
        } else {
            assert(found =~= before);
        }
    }
}

/// The adjacency matrix holds 1 where one of two nodes lists the other, at whatever place, and 0
/// elsewhere. The degree matrix holds the number of nodes that a node lists or is listed by on the
/// diagonal, and 0 elsewhere. The Laplacian is the difference.
pub proof fn law_entries_of_the_matrices(
    adj: Seq<Seq<usize>>,
    n: nat,
    a: IntegerMatrix,
    d: IntegerMatrix,
    i: int,
    j: int,
)
    requires
        covers(adj, n),
        are_matrices(adj, n, a, d),
        0 <= i < n,
        0 <= j < n,
    ensures
        matrix_rows(a)[i][j] == 0 || matrix_rows(a)[i][j] == 1,
        (matrix_rows(a)[i][j] == 1) == ((exists|k: int|
            0 <= k < adj[i].len() && #[trigger] adj[i][k] == j) || (exists|k: int|
            0 <= k < adj[j].len() && #[trigger] adj[j][k] == i)),
        i != j ==> matrix_rows(d)[i][j] == 0,
        matrix_rows(d)[i][i] == Set::new(
            |k: int| 0 <= k < n && (adj[i].contains(k as usize) || adj[k].contains(i as usize)),
        ).len(),
        difference_rows(d, a)[i][j] == matrix_rows(d)[i][j] - matrix_rows(a)[i][j],
{
    lemma_neighbor_count_fits(adj, i, n, n);
    lemma_neighbor_set(adj, i, n);
    lemma_entry(adj, n, a, d, i, j);
    assert(n <= usize::MAX) by {
        assert(n <= 8 * (n * n)) by (nonlinear_arith)
            requires
                n > 0,
        ;
    }
    if linked(adj, i, j) {
        if adj[i].contains(j as usize) {
            let k = choose|k: int| 0 <= k < adj[i].len() && adj[i][k] == j as usize;
            assert(adj[i][k] == j);
        } else {
            let k = choose|k: int| 0 <= k < adj[j].len() && adj[j][k] == i as usize;
            assert(adj[j][k] == i);
        }
    }
}

} // verus!
