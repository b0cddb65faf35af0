//! Adjacency, degree and Laplacian matrices of a graph, held by `nalgebra`.

use nalgebra::DMatrix;
use vstd::prelude::*;

use crate::adjacency::AdjacencyList;
use crate::text::nested;

verus! {

/// A matrix of integers: a `nalgebra::DMatrix`.
#[verifier::external_body]
pub struct IntegerMatrix {
    inner: DMatrix<i64>,
}

/// The entries of a matrix, row by row.
pub uninterp spec fn matrix_rows(matrix: IntegerMatrix) -> Seq<Seq<i64>>;

/// The number of columns of a matrix.
pub uninterp spec fn matrix_columns(matrix: IntegerMatrix) -> nat;

/// A matrix of this size fits into memory that can be addressed.
pub open spec fn matrix_fits(rows: nat, columns: nat) -> bool {
    8 * (rows * columns) <= isize::MAX
}

/// Two matrices have as many rows and as many columns.
pub open spec fn same_shape(left: IntegerMatrix, right: IntegerMatrix) -> bool {
    &&& matrix_rows(left).len() == matrix_rows(right).len()
    &&& matrix_columns(left) == matrix_columns(right)
}

/// The difference of two matrices has no entry that an `i64` cannot hold.
pub open spec fn difference_fits(left: IntegerMatrix, right: IntegerMatrix) -> bool {
    forall|i: int, j: int|
        0 <= i < matrix_rows(left).len() && 0 <= j < matrix_columns(left) ==> i64::MIN <= (
        #[trigger] matrix_rows(left)[i][j]) - matrix_rows(right)[i][j] <= i64::MAX
}

/// The difference of two matrices, entry by entry.
pub open spec fn difference_rows(left: IntegerMatrix, right: IntegerMatrix) -> Seq<Seq<i64>> {
    Seq::new(
        matrix_rows(left).len(),
        |i: int|
            Seq::new(
                matrix_columns(left),
                |j: int| (matrix_rows(left)[i][j] - matrix_rows(right)[i][j]) as i64,
            ),
    )
}

/// `nalgebra::DMatrix::zeros`: a matrix of the given size whose entries are all zero.
#[verifier::external_body]
fn zeros(rows: usize, columns: usize) -> (matrix: IntegerMatrix)
    requires
        matrix_fits(rows as nat, columns as nat),
    ensures
        matrix_rows(matrix) == Seq::new(
            rows as nat,
            |i: int| Seq::new(columns as nat, |j: int| 0i64),
        ),
        matrix_columns(matrix) == columns,
{
    IntegerMatrix { inner: DMatrix::zeros(rows, columns) }
}

/// `nrows` of a `nalgebra::DMatrix`: the number of its rows.
#[verifier::external_body]
fn count_rows(matrix: &IntegerMatrix) -> (rows: usize)
    ensures
        rows == matrix_rows(*matrix).len(),
{
    matrix.inner.nrows()
}

/// `ncols` of a `nalgebra::DMatrix`: the number of its columns.
#[verifier::external_body]
fn count_columns(matrix: &IntegerMatrix) -> (columns: usize)
    ensures
        columns == matrix_columns(*matrix),
{
    matrix.inner.ncols()
}

/// `Index` of a `nalgebra::DMatrix`: one entry.
#[verifier::external_body]
fn get_entry(matrix: &IntegerMatrix, row: usize, column: usize) -> (value: i64)
    requires
        row < matrix_rows(*matrix).len(),
        column < matrix_columns(*matrix),
    ensures
        value == matrix_rows(*matrix)[row as int][column as int],
{
    matrix.inner[(row, column)]
}

/// `IndexMut` of a `nalgebra::DMatrix`: sets one entry and leaves the others.
#[verifier::external_body]
fn set_entry(matrix: &mut IntegerMatrix, row: usize, column: usize, value: i64)
    requires
        row < matrix_rows(*old(matrix)).len(),
        column < matrix_columns(*old(matrix)),
    ensures
        matrix_rows(*final(matrix)) == matrix_rows(*old(matrix)).update(
            row as int,
            matrix_rows(*old(matrix))[row as int].update(column as int, value),
        ),
        matrix_columns(*final(matrix)) == matrix_columns(*old(matrix)),
{
    matrix.inner[(row, column)] = value;
}

/// `Sub` of two `nalgebra::DMatrix` of the same size: the difference, entry by entry.
#[verifier::external_body]
fn subtract(left: &IntegerMatrix, right: &IntegerMatrix) -> (difference: IntegerMatrix)
    requires
        same_shape(*left, *right),
        difference_fits(*left, *right),
    ensures
        matrix_rows(difference) == difference_rows(*left, *right),
        matrix_columns(difference) == matrix_columns(*left),
{
    IntegerMatrix { inner: &left.inner - &right.inner }
}

impl IntegerMatrix {
    /// The number of rows.
    pub fn rows(&self) -> (rows: usize)
        ensures
            rows == matrix_rows(*self).len(),
    {
        count_rows(self)
    }

    /// The number of columns.
    pub fn columns(&self) -> (columns: usize)
        ensures
            columns == matrix_columns(*self),
    {
        count_columns(self)
    }

    /// The entry at a row and a column.
    pub fn entry(&self, row: usize, column: usize) -> (value: i64)
        requires
            row < matrix_rows(*self).len(),
            column < matrix_columns(*self),
        ensures
            value == matrix_rows(*self)[row as int][column as int],
    {
        get_entry(self, row, column)
    }
}

/// Two nodes are neighbors: at least one of them lists the other.
pub open spec fn linked(adj: Seq<Seq<usize>>, i: int, j: int) -> bool {
    adj[i].contains(j as usize) || adj[j].contains(i as usize)
}

/// The adjacency matrix over the first `n` nodes: 1 where two nodes are neighbors, else 0.
pub open spec fn adjacency_rows(adj: Seq<Seq<usize>>, n: nat) -> Seq<Seq<i64>> {
    Seq::new(
        n,
        |i: int|
            Seq::new(
                n,
                |j: int|
                    if linked(adj, i, j) {
                        1i64
                    } else {
                        0i64
                    },
            ),
    )
}

/// How many of the first `n` nodes are neighbors of node `i`.
pub open spec fn neighbor_count(adj: Seq<Seq<usize>>, i: int, n: nat) -> nat
    decreases n,
{
    if n == 0 {
        0
    } else {
        neighbor_count(adj, i, (n - 1) as nat) + (if linked(adj, i, n - 1) {
            1nat
        } else {
            0nat
        })
    }
}

/// The degree matrix over the first `n` nodes: the number of neighbors of each node, on the
/// diagonal.
pub open spec fn degree_rows(adj: Seq<Seq<usize>>, n: nat) -> Seq<Seq<i64>> {
    Seq::new(
        n,
        |i: int|
            Seq::new(
                n,
                |j: int|
                    if i == j {
                        neighbor_count(adj, i, n) as i64
                    } else {
                        0i64
                    },
            ),
    )
}

/// The matrices over the first `n` nodes can be built: there are as many nodes, and no other node
/// lists one of them.
pub open spec fn covers(adj: Seq<Seq<usize>>, n: nat) -> bool {
    &&& n <= adj.len()
    &&& matrix_fits(n, n)
    &&& forall|i: int, k: int|
        n <= i < adj.len() && 0 <= k < adj[i].len() ==> (#[trigger] adj[i][k]) >= n
}

/// These are the adjacency matrix and the degree matrix over the first `n` nodes.
pub open spec fn are_matrices(
    adj: Seq<Seq<usize>>,
    n: nat,
    a: IntegerMatrix,
    d: IntegerMatrix,
) -> bool {
    &&& matrix_rows(a) == adjacency_rows(adj, n)
    &&& matrix_columns(a) == n
    &&& matrix_rows(d) == degree_rows(adj, n)
    &&& matrix_columns(d) == n
}

/// A node has no more neighbors than there are nodes, which is a number that an `i64` holds.
pub(crate) proof fn lemma_neighbor_count_fits(adj: Seq<Seq<usize>>, i: int, n: nat, m: nat)
    requires
        matrix_fits(n, n),
        m <= n,
    ensures
        neighbor_count(adj, i, m) <= m,
        n <= i64::MAX,
    decreases m,
{
    if n > 0 {
        assert(n <= 8 * (n * n)) by (nonlinear_arith)
            requires
                n > 0,
        ;
    }
    if m > 0 {
        lemma_neighbor_count_fits(adj, i, n, (m - 1) as nat);
    }
}

/// Node `r` lists `c`, as far as the lists of the nodes before `i` and the first `k` entries of the
/// list of `i` tell.
spec fn seen(adj: Seq<Seq<usize>>, r: int, c: int, i: int, k: int) -> bool {
    ||| r < i && adj[r].contains(c as usize)
    ||| r == i && adj[r].take(k).contains(c as usize)
}

/// The adjacency matrix as far as the lists were looked at.
spec fn filled(
    rows: Seq<Seq<i64>>,
    adj: Seq<Seq<usize>>,
    n: nat,
    i: int,
    k: int,
) -> bool {
    &&& rows.len() == n
    &&& forall|r: int| 0 <= r < n ==> (#[trigger] rows[r]).len() == n
    &&& forall|r: int, c: int|
        0 <= r < n && 0 <= c < n ==> #[trigger] rows[r][c] == (if seen(adj, r, c, i, k) || seen(
            adj,
            c,
            r,
            i,
            k,
        ) {
            1i64
        } else {
            0i64
        })
}

/// Looking at one more entry of a list adds what that entry says.
proof fn lemma_seen_step(adj: Seq<Seq<usize>>, r: int, c: int, i: int, k: int)
    requires
        0 <= i < adj.len(),
        0 <= k < adj[i].len(),
        0 <= c <= usize::MAX,
    ensures
        seen(adj, r, c, i, k + 1) == (seen(adj, r, c, i, k) || (r == i && adj[i][k] == c)),
{
    let list = adj[i];
    assert(list.take(k + 1) =~= list.take(k).push(list[k]));
    if r == i {
        let c = c as usize;
        let longer = list.take(k + 1);
        let shorter = list.take(k);
        if longer.contains(c) {
            let p = choose|p: int| 0 <= p < longer.len() && longer[p] == c;
            if p < k {
                assert(shorter[p] == c);
            }
        }
        if shorter.contains(c) {
            let p = choose|p: int| 0 <= p < shorter.len() && shorter[p] == c;
            assert(longer[p] == c);
        }
        if list[k] == c {
            assert(longer[k] == c);
        }
    }
}

/// Having looked at a whole list is being about to look at the next one.
proof fn lemma_seen_next(adj: Seq<Seq<usize>>, r: int, c: int, i: int)
    requires
        0 <= i < adj.len(),
    ensures
        seen(adj, r, c, i + 1, 0) == seen(adj, r, c, i, adj[i].len() as int),
{
    assert(adj[i].take(adj[i].len() as int) =~= adj[i]);
    if r == i + 1 {
        assert(adj[r].take(0) =~= Seq::<usize>::empty());
    }
}

/// Builds the adjacency matrix and the degree matrix.
///
/// Returns `(A, D)` where `A[i][j] = 1` if edge exists, and `D` is diagonal with degrees.
pub fn build_matrices(adj: &AdjacencyList, n: usize) -> (matrices: (IntegerMatrix, IntegerMatrix))
    requires
        covers(nested(adj@), n as nat),
    ensures
        are_matrices(nested(adj@), n as nat, matrices.0, matrices.1),
        same_shape(matrices.1, matrices.0),
        difference_fits(matrices.1, matrices.0),
{
    let ghost lists = nested(adj@);
    let mut a = zeros(n, n);
    proof {
        assert forall|r: int, c: int| 0 <= r < n && 0 <= c < n implies !seen(lists, r, c, 0, 0) by {
            assert(lists[r].take(0) =~= Seq::<usize>::empty());
        }
    }
    let mut i: usize = 0;
    while i < adj.len()
        invariant
            i <= adj@.len(),
            lists == nested(adj@),
            covers(lists, n as nat),
            matrix_columns(a) == n,
            filled(matrix_rows(a), lists, n as nat, i as int, 0),
        decreases adj.len() - i,
    {
        let mut k: usize = 0;
        assert(lists[i as int] == adj@[i as int]@);
        while k < adj[i].len()
            invariant
                i < adj@.len(),
                k <= adj@[i as int]@.len(),
                lists == nested(adj@),
                lists[i as int] == adj@[i as int]@,
                covers(lists, n as nat),
                matrix_columns(a) == n,
                filled(matrix_rows(a), lists, n as nat, i as int, k as int),
            decreases adj@[i as int]@.len() - k,
        {
            let j: usize = adj[i][k];
            assert(lists[i as int][k as int] == j);
            let ghost before = matrix_rows(a);
            if j < n {
                set_entry(&mut a, i, j, 1);
                set_entry(&mut a, j, i, 1);
            }
            proof {
                let rows = matrix_rows(a);
                assert forall|r: int, c: int| 0 <= r < n && 0 <= c < n implies #[trigger] rows[r][c]
                    == (if seen(lists, r, c, i as int, k + 1) || seen(
                    lists,
                    c,
                    r,
                    i as int,
                    k + 1,
                ) {
                    1i64
                } else {
                    0i64
                }) by {
                    lemma_seen_step(lists, r, c, i as int, k as int);
                    lemma_seen_step(lists, c, r, i as int, k as int);
                    let _ = before[r][c];
                }
            }
            k = k + 1;
        }
        proof {
            let rows = matrix_rows(a);
            assert forall|r: int, c: int| 0 <= r < n && 0 <= c < n implies #[trigger] rows[r][c] == (
            if seen(lists, r, c, i + 1, 0) || seen(lists, c, r, i + 1, 0) {
                1i64
            } else {
                0i64
            }) by {
                lemma_seen_next(lists, r, c, i as int);
                lemma_seen_next(lists, c, r, i as int);
            }
        }
        i = i + 1;
    }
    assert(matrix_rows(a) =~~= adjacency_rows(lists, n as nat));

    let mut d = zeros(n, n);
    let mut i: usize = 0;
    while i < n
        invariant
            i <= n,
            matrix_fits(n as nat, n as nat),
            matrix_rows(a) == adjacency_rows(lists, n as nat),
            matrix_columns(a) == n,
            matrix_columns(d) == n,
            matrix_rows(d).len() == n,
            forall|r: int| 0 <= r < n ==> (#[trigger] matrix_rows(d)[r]).len() == n,
            forall|r: int, c: int|
                0 <= r < n && 0 <= c < n ==> #[trigger] matrix_rows(d)[r][c] == (if r == c && r
                    < i {
                    neighbor_count(lists, r, n as nat) as i64
                } else {
                    0i64
                }),
        decreases n - i,
    {
        let mut degree: usize = 0;
        let mut j: usize = 0;
        while j < n
            invariant
                i < n,
                j <= n,
                degree <= j,
                matrix_rows(a) == adjacency_rows(lists, n as nat),
                matrix_columns(a) == n,
                degree == neighbor_count(lists, i as int, j as nat),
            decreases n - j,
        {
            if get_entry(&a, i, j) == 1 {
                degree = degree + 1;
            }
            j = j + 1;
        }
        proof {
            lemma_neighbor_count_fits(lists, i as int, n as nat, n as nat);
        }
        set_entry(&mut d, i, i, degree as i64);
        i = i + 1;
    }
    assert(matrix_rows(d) =~~= degree_rows(lists, n as nat));
    assert(difference_fits(d, a)) by {
        assert forall|r: int, c: int| 0 <= r < n && 0 <= c < n implies i64::MIN <= (
        #[trigger] matrix_rows(d)[r][c]) - matrix_rows(a)[r][c] <= i64::MAX by {
            lemma_neighbor_count_fits(lists, r, n as nat, n as nat);
        }
    }
    (a, d)
}

/// Computes the graph Laplacian: `L = D - A`.
pub fn laplacian(d: &IntegerMatrix, a: &IntegerMatrix) -> (l: IntegerMatrix)
    requires
        same_shape(*d, *a),
        difference_fits(*d, *a),
    ensures
        matrix_rows(l) == difference_rows(*d, *a),
        matrix_columns(l) == matrix_columns(*d),
{
    subtract(d, a)
}

} // verus!
