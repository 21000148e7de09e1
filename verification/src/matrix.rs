//! Boolean matrix algebra over a fixed set of grammar symbols.
//!
//! A square boolean matrix stands for a relation over the symbols: entry
//! `[i][j]` says whether symbol `i` relates to symbol `j`.  The operations
//! here are the boolean-semiring product (relational composition),
//! elementwise union, transposition, the Warshall transitive closure and
//! the identity relation.

use vstd::prelude::*;

verus! {

/// A relation over grammar symbols, stored row by row.
pub type Matrix = Vec<Vec<bool>>;

#[derive(Debug, Clone, Copy, PartialEq, Eq, Structural)]
pub enum MatrixError {
    /// A two-operand operation was handed matrices of unequal or
    /// non-square dimensions.
    DimensionMismatch,
}

/// The mathematical value of a matrix: a sequence of rows.
pub open spec fn mat_view(m: &Matrix) -> Seq<Seq<bool>> {
    Seq::new(m@.len(), |i: int| m@[i]@)
}

/// Every row is exactly as long as there are rows.
pub open spec fn is_square(m: Seq<Seq<bool>>) -> bool {
    forall|i: int| 0 <= i < m.len() ==> (#[trigger] m[i]).len() == m.len()
}

/// Entry `(i, j)` of the boolean product: does some `k` join row `i` of
/// `a` to column `j` of `b`?
pub open spec fn prod_entry(a: Seq<Seq<bool>>, b: Seq<Seq<bool>>, i: int, j: int) -> bool {
    exists|k: int| 0 <= k < a.len() && a[i][k] && b[k][j]
}

/// Boolean-semiring matrix product (relational composition).
pub open spec fn mat_product(a: Seq<Seq<bool>>, b: Seq<Seq<bool>>) -> Seq<Seq<bool>> {
    Seq::new(a.len(), |i: int| Seq::new(a.len(), |j: int| prod_entry(a, b, i, j)))
}

/// Elementwise disjunction of two relations.
pub open spec fn mat_sum(a: Seq<Seq<bool>>, b: Seq<Seq<bool>>) -> Seq<Seq<bool>> {
    Seq::new(a.len(), |i: int| Seq::new(a.len(), |j: int| a[i][j] || b[i][j]))
}

/// The converse relation.
pub open spec fn mat_transpose(a: Seq<Seq<bool>>) -> Seq<Seq<bool>> {
    Seq::new(a.len(), |i: int| Seq::new(a.len(), |j: int| a[j][i]))
}

/// The identity relation on `n` symbols.
pub open spec fn mat_identity(n: nat) -> Seq<Seq<bool>> {
    Seq::new(n, |i: int| Seq::new(n, |j: int| i == j))
}

/// The empty relation on `n` symbols.
pub open spec fn mat_zero(n: nat) -> Seq<Seq<bool>> {
    Seq::new(n, |i: int| Seq::new(n, |j: int| false))
}

/// Whether `j` can be reached from `i` in one or more steps of `a`,
/// using only intermediate symbols smaller than `k`.  This is the
/// Warshall recurrence; with `k` equal to the dimension it describes
/// plain reachability in one or more steps.
pub open spec fn reach(a: Seq<Seq<bool>>, i: int, j: int, k: int) -> bool
    decreases k,
{
    if k <= 0 {
        a[i][j]
    } else {
        reach(a, i, j, k - 1) || (reach(a, i, k - 1, k - 1) && reach(a, k - 1, j, k - 1))
    }
}

/// The transitive closure of a relation: reachability in one or more
/// steps through any intermediates.
pub open spec fn mat_closure(a: Seq<Seq<bool>>) -> Seq<Seq<bool>> {
    Seq::new(a.len(), |i: int| Seq::new(a.len(), |j: int| reach(a, i, j, a.len() as int)))
}

/// Checks at run time that the matrix is square.
pub fn matrix_is_square(m: &Matrix) -> (b: bool)
    ensures
        b == is_square(mat_view(m)),
{
    let n = m.len();
    let mut i: usize = 0;
    while i < n
        invariant
            i <= n,
            n == m@.len(),
            forall|i2: int| 0 <= i2 < i ==> (#[trigger] mat_view(m)[i2]).len() == n,
        decreases n - i,
    {
        if m[i].len() != n {
            assert(mat_view(m)[i as int].len() != n);
            return false;
        }
        assert(mat_view(m)[i as int].len() == n);
        i += 1;
    }
    true
}

/// Relational composition of two relations over the same symbols:
/// `Ok` exactly when both operands are square with equal dimension, and
/// the result then has entry `(i, j)` set exactly when some `k` joins
/// `a[i][k]` with `b[k][j]`.
pub fn product(m1: &Matrix, m2: &Matrix) -> (r: Result<Matrix, MatrixError>)
    ensures
        r is Ok <==> is_square(mat_view(m1)) && is_square(mat_view(m2)) && m1@.len()
            == m2@.len(),
        r is Ok ==> mat_view(&r->Ok_0) == mat_product(mat_view(m1), mat_view(m2)),
        r is Err ==> r == Err::<Matrix, MatrixError>(MatrixError::DimensionMismatch),
{
    if !matrix_is_square(m1) || !matrix_is_square(m2) || m1.len() != m2.len() {
        return Err(MatrixError::DimensionMismatch);
    }
    let ghost a = mat_view(m1);
    let ghost b = mat_view(m2);
    let n = m1.len();
    let mut rows: Matrix = Vec::new();
    let mut i: usize = 0;
    while i < n
        invariant
            i <= n,
            n == a.len(),
            a == mat_view(m1),
            b == mat_view(m2),
            is_square(a),
            is_square(b),
            b.len() == n,
            rows@.len() == i,
            forall|i2: int| 0 <= i2 < i ==> (#[trigger] rows@[i2])@ == mat_product(a, b)[i2],
        decreases n - i,
    {
        let mut row: Vec<bool> = Vec::new();
        let mut j: usize = 0;
        while j < n
            invariant
                j <= n,
                i < n,
                n == a.len(),
                a == mat_view(m1),
                b == mat_view(m2),
                is_square(a),
                is_square(b),
                b.len() == n,
                row@.len() == j,
                forall|j2: int| 0 <= j2 < j ==> row@[j2] == prod_entry(a, b, i as int, j2),
            decreases n - j,
        {
            let mut acc = false;
            let mut k: usize = 0;
            while k < n
                invariant
                    k <= n,
                    i < n,
                    j < n,
                    n == a.len(),
                    a == mat_view(m1),
                    b == mat_view(m2),
                    is_square(a),
                    is_square(b),
                    b.len() == n,
                    acc == exists|k2: int| 0 <= k2 < k && a[i as int][k2] && b[k2][j as int],
                decreases n - k,
            {
                proof {
                    assert(a[i as int] == m1@[i as int]@);
                    assert(b[k as int] == m2@[k as int]@);
                }
                let step = m1[i][k] && m2[k][j];
                proof {
                    if step {
                        assert(a[i as int][k as int] && b[k as int][j as int]);
                    }
                    if acc || step {
                        let k0 = if acc {
                            choose|k2: int| 0 <= k2 < k && a[i as int][k2] && b[k2][j as int]
                        } else {
                            k as int
                        };
                        assert(0 <= k0 < k + 1 && a[i as int][k0] && b[k0][j as int]);
                    }
                }
                acc = acc || step;
                k += 1;
            }
            proof {
                assert(acc == prod_entry(a, b, i as int, j as int));
            }
            row.push(acc);
            j += 1;
        }
        proof {
            assert(row@ =~= mat_product(a, b)[i as int]);
        }
        rows.push(row);
        i += 1;
    }
    proof {
        assert(mat_view(&rows) =~~= mat_product(a, b));
    }
    Ok(rows)
}

/// Elementwise union of two relations: `Ok` exactly when both operands
/// are square with equal dimension; the result is the pointwise
/// disjunction.
pub fn sum(m1: &Matrix, m2: &Matrix) -> (r: Result<Matrix, MatrixError>)
    ensures
        r is Ok <==> is_square(mat_view(m1)) && is_square(mat_view(m2)) && m1@.len()
            == m2@.len(),
        r is Ok ==> mat_view(&r->Ok_0) == mat_sum(mat_view(m1), mat_view(m2)),
        r is Err ==> r == Err::<Matrix, MatrixError>(MatrixError::DimensionMismatch),
{
    if !matrix_is_square(m1) || !matrix_is_square(m2) || m1.len() != m2.len() {
        return Err(MatrixError::DimensionMismatch);
    }
    let ghost a = mat_view(m1);
    let ghost b = mat_view(m2);
    let n = m1.len();
    let mut rows: Matrix = Vec::new();
    let mut i: usize = 0;
    while i < n
        invariant
            i <= n,
            n == a.len(),
            a == mat_view(m1),
            b == mat_view(m2),
            is_square(a),
            is_square(b),
            b.len() == n,
            rows@.len() == i,
            forall|i2: int| 0 <= i2 < i ==> (#[trigger] rows@[i2])@ == mat_sum(a, b)[i2],
        decreases n - i,
    {
        let mut row: Vec<bool> = Vec::new();
        let mut j: usize = 0;
        while j < n
            invariant
                j <= n,
                i < n,
                n == a.len(),
                a == mat_view(m1),
                b == mat_view(m2),
                is_square(a),
                is_square(b),
                b.len() == n,
                row@.len() == j,
                forall|j2: int| 0 <= j2 < j ==> row@[j2] == (a[i as int][j2] || b[i as int][j2]),
            decreases n - j,
        {
            proof {
                assert(a[i as int] == m1@[i as int]@);
                assert(b[i as int] == m2@[i as int]@);
            }
            row.push(m1[i][j] || m2[i][j]);
            j += 1;
        }
        proof {
            assert(row@ =~= mat_sum(a, b)[i as int]);
        }
        rows.push(row);
        i += 1;
    }
    proof {
        assert(mat_view(&rows) =~~= mat_sum(a, b));
    }
    Ok(rows)
}

/// Union of two relations before further processing; the same
/// operation as `sum`, under the name the relation builder uses.
pub fn combine_matrix(m1: &Matrix, m2: &Matrix) -> (r: Result<Matrix, MatrixError>)
    ensures
        r is Ok <==> is_square(mat_view(m1)) && is_square(mat_view(m2)) && m1@.len()
            == m2@.len(),
        r is Ok ==> mat_view(&r->Ok_0) == mat_sum(mat_view(m1), mat_view(m2)),
        r is Err ==> r == Err::<Matrix, MatrixError>(MatrixError::DimensionMismatch),
{
    sum(m1, m2)
}

/// The converse relation: entry `(i, j)` of the result is entry
/// `(j, i)` of the argument.
pub fn transpose(m: &Matrix) -> (r: Matrix)
    requires
        is_square(mat_view(m)),
    ensures
        mat_view(&r) == mat_transpose(mat_view(m)),
{
    let ghost a = mat_view(m);
    let n = m.len();
    let mut rows: Matrix = Vec::new();
    let mut i: usize = 0;
    while i < n
        invariant
            i <= n,
            n == a.len(),
            a == mat_view(m),
            is_square(a),
            rows@.len() == i,
            forall|i2: int| 0 <= i2 < i ==> (#[trigger] rows@[i2])@ == mat_transpose(a)[i2],
        decreases n - i,
    {
        let mut row: Vec<bool> = Vec::new();
        let mut j: usize = 0;
        while j < n
            invariant
                j <= n,
                i < n,
                n == a.len(),
                a == mat_view(m),
                is_square(a),
                row@.len() == j,
                forall|j2: int| 0 <= j2 < j ==> row@[j2] == a[j2][i as int],
            decreases n - j,
        {
            proof {
                assert(a[j as int] == m@[j as int]@);
            }
            row.push(m[j][i]);
            j += 1;
        }
        proof {
            assert(row@ =~= mat_transpose(a)[i as int]);
        }
        rows.push(row);
        i += 1;
    }
    proof {
        assert(mat_view(&rows) =~~= mat_transpose(a));
    }
    rows
}

/// The identity relation: true exactly on the diagonal.
pub fn create_identity(size: usize) -> (r: Matrix)
    ensures
        mat_view(&r) == mat_identity(size as nat),
{
    let mut rows: Matrix = Vec::new();
    let mut i: usize = 0;
    while i < size
        invariant
            i <= size,
            rows@.len() == i,
            forall|i2: int| 0 <= i2 < i ==> (#[trigger] rows@[i2])@ == mat_identity(size as nat)[i2],
        decreases size - i,
    {
        let mut row: Vec<bool> = Vec::new();
        let mut j: usize = 0;
        while j < size
            invariant
                j <= size,
                i < size,
                row@.len() == j,
                forall|j2: int| 0 <= j2 < j ==> row@[j2] == (i as int == j2),
            decreases size - j,
        {
            row.push(i == j);
            j += 1;
        }
        proof {
            assert(row@ =~= mat_identity(size as nat)[i as int]);
        }
        rows.push(row);
        i += 1;
    }
    proof {
        assert(mat_view(&rows) =~~= mat_identity(size as nat));
    }
    rows
}


/// Warshall closure: entry `(i, j)` of the result says whether `j` is
/// reachable from `i` in one or more steps of the input relation.
pub fn transitive_closure(m: &Matrix) -> (r: Matrix)
    requires
        is_square(mat_view(m)),
    ensures
        mat_view(&r) == mat_closure(mat_view(m)),
{
    let ghost a = mat_view(m);
    let n = m.len();
    let mut r: Matrix = Vec::new();
    let mut i: usize = 0;
    while i < n
        invariant
            i <= n,
            n == a.len(),
            a == mat_view(m),
            is_square(a),
            r@.len() == i,
            forall|i2: int| 0 <= i2 < i ==> (#[trigger] r@[i2])@ == a[i2],
        decreases n - i,
    {
        let mut row: Vec<bool> = Vec::new();
        let mut j: usize = 0;
        while j < n
            invariant
                j <= n,
                i < n,
                n == a.len(),
                a == mat_view(m),
                is_square(a),
                row@.len() == j,
                forall|j2: int| 0 <= j2 < j ==> row@[j2] == a[i as int][j2],
            decreases n - j,
        {
            proof {
                assert(a[i as int] == m@[i as int]@);
            }
            row.push(m[i][j]);
            j += 1;
        }
        proof {
            assert(row@ =~= a[i as int]);
        }
        r.push(row);
        i += 1;
    }
    let mut piv: usize = 0;
    while piv < n
        invariant
            piv <= n,
            n == a.len(),
            is_square(a),
            r@.len() == n,
            forall|i2: int| 0 <= i2 < n ==> (#[trigger] r@[i2])@.len() == n,
            forall|i2: int, j2: int|
                0 <= i2 < n && 0 <= j2 < n ==> #[trigger] r@[i2]@[j2] == reach(
                    a,
                    i2,
                    j2,
                    piv as int,
                ),
        decreases n - piv,
    {
        let mut i: usize = 0;
        while i < n
            invariant
                i <= n,
                piv < n,
                n == a.len(),
                is_square(a),
                r@.len() == n,
                forall|i2: int| 0 <= i2 < n ==> (#[trigger] r@[i2])@.len() == n,
                forall|i2: int, j2: int|
                    0 <= i2 < i && 0 <= j2 < n ==> #[trigger] r@[i2]@[j2] == reach(
                        a,
                        i2,
                        j2,
                        piv as int + 1,
                    ),
                forall|i2: int, j2: int|
                    i <= i2 < n && 0 <= j2 < n ==> #[trigger] r@[i2]@[j2] == reach(
                        a,
                        i2,
                        j2,
                        piv as int,
                    ),
            decreases n - i,
        {
            proof {
                lemma_reach_pivot_row(a, piv as int, n as int);
            }
            if r[i][piv] {
                let mut newrow: Vec<bool> = Vec::new();
                let mut k: usize = 0;
                while k < n
                    invariant
                        k <= n,
                        i < n,
                        piv < n,
                        n == a.len(),
                        is_square(a),
                        r@.len() == n,
                        forall|i2: int| 0 <= i2 < n ==> (#[trigger] r@[i2])@.len() == n,
                        forall|i2: int, j2: int|
                            0 <= i2 < i && 0 <= j2 < n ==> #[trigger] r@[i2]@[j2] == reach(
                                a,
                                i2,
                                j2,
                                piv as int + 1,
                            ),
                        forall|i2: int, j2: int|
                            i <= i2 < n && 0 <= j2 < n ==> #[trigger] r@[i2]@[j2] == reach(
                                a,
                                i2,
                                j2,
                                piv as int,
                            ),
                        reach(a, i as int, piv as int, piv as int),
                        newrow@.len() == k,
                        forall|j2: int|
                            0 <= j2 < k ==> newrow@[j2] == (reach(a, i as int, j2, piv as int)
                                || reach(a, piv as int, j2, piv as int)),
                    decreases n - k,
                {
                    proof {
                        lemma_reach_pivot_row(a, piv as int, n as int);
                        if (piv as int) < i {
                            assert(r@[piv as int]@[k as int] == reach(
                                a,
                                piv as int,
                                k as int,
                                piv as int + 1,
                            ));
                        }
                        assert(r@[piv as int]@[k as int] == reach(
                            a,
                            piv as int,
                            k as int,
                            piv as int,
                        ));
                    }
                    newrow.push(r[i][k] || r[piv][k]);
                    k += 1;
                }
                r.set(i, newrow);
                proof {
                    assert forall|j2: int| 0 <= j2 < n implies #[trigger] r@[i as int]@[j2]
                        == reach(a, i as int, j2, piv as int + 1) by {
                        assert(reach(a, i as int, j2, piv as int + 1) == (reach(
                            a,
                            i as int,
                            j2,
                            piv as int,
                        ) || (reach(a, i as int, piv as int, piv as int) && reach(
                            a,
                            piv as int,
                            j2,
                            piv as int,
                        ))));
                    }
                }
            } else {
                proof {
                    assert forall|j2: int| 0 <= j2 < n implies #[trigger] r@[i as int]@[j2]
                        == reach(a, i as int, j2, piv as int + 1) by {
                        assert(!reach(a, i as int, piv as int, piv as int));
                        assert(reach(a, i as int, j2, piv as int + 1) == (reach(
                            a,
                            i as int,
                            j2,
                            piv as int,
                        ) || (reach(a, i as int, piv as int, piv as int) && reach(
                            a,
                            piv as int,
                            j2,
                            piv as int,
                        ))));
                    }
                }
            }
            i += 1;
        }
        piv += 1;
    }
    proof {
        assert(mat_view(&r) =~~= mat_closure(a));
    }
    r
}

/// One closure step beyond the pivot itself changes nothing in the
/// pivot's own row.
proof fn lemma_reach_pivot_row(a: Seq<Seq<bool>>, p: int, n: int)
    ensures
        forall|j: int| #[trigger] reach(a, p, j, p + 1) == reach(a, p, j, p),
{
    assert forall|j: int| #[trigger] reach(a, p, j, p + 1) == reach(a, p, j, p) by {
        if p >= 0 {
            assert(reach(a, p, j, p + 1) == (reach(a, p, j, p) || (reach(a, p, p, p) && reach(
                a,
                p,
                j,
                p,
            ))));
        }
    }
}

/// Reachability with fewer allowed intermediates implies reachability
/// with more.
pub proof fn lemma_reach_monotone(a: Seq<Seq<bool>>, i: int, j: int, k1: int, k2: int)
    requires
        0 <= k1 <= k2,
        reach(a, i, j, k1),
    ensures
        reach(a, i, j, k2),
    decreases k2,
{
    if k2 > k1 {
        lemma_reach_monotone(a, i, j, k1, k2 - 1);
    }
}

/// The closure contains the relation itself.
pub proof fn lemma_reach_contains(a: Seq<Seq<bool>>, i: int, j: int, k: int)
    requires
        0 <= k,
        a[i][j],
    ensures
        reach(a, i, j, k),
{
    lemma_reach_monotone(a, i, j, 0, k);
}

/// Reachability composes: a way from `i` to `m` and a way from `m` to
/// `j`, both over intermediates below `k`, join to a way from `i` to
/// `j` when `m` itself lies below `k`.
pub proof fn lemma_reach_trans(a: Seq<Seq<bool>>, i: int, m: int, j: int, k: int)
    requires
        0 <= m < k,
        reach(a, i, m, k),
        reach(a, m, j, k),
    ensures
        reach(a, i, j, k),
    decreases k,
{
    if m == k - 1 {
        assert(reach(a, i, m, k) == (reach(a, i, m, k - 1) || (reach(a, i, k - 1, k - 1) && reach(
            a,
            k - 1,
            m,
            k - 1,
        ))));
        assert(reach(a, m, j, k) == (reach(a, m, j, k - 1) || (reach(a, m, k - 1, k - 1) && reach(
            a,
            k - 1,
            j,
            k - 1,
        ))));
        assert(reach(a, i, k - 1, k - 1));
        assert(reach(a, k - 1, j, k - 1));
    } else {
        if reach(a, i, m, k - 1) {
            if reach(a, m, j, k - 1) {
                lemma_reach_trans(a, i, m, j, k - 1);
                lemma_reach_monotone(a, i, j, k - 1, k);
            } else {
                assert(reach(a, m, k - 1, k - 1) && reach(a, k - 1, j, k - 1));
                lemma_reach_trans(a, i, m, k - 1, k - 1);
                assert(reach(a, i, k - 1, k - 1));
            }
        } else {
            assert(reach(a, i, k - 1, k - 1) && reach(a, k - 1, m, k - 1));
            if reach(a, m, j, k - 1) {
                lemma_reach_trans(a, k - 1, m, j, k - 1);
                assert(reach(a, k - 1, j, k - 1));
            } else {
                assert(reach(a, m, k - 1, k - 1) && reach(a, k - 1, j, k - 1));
            }
        }
    }
}

/// Reachability inside the closure collapses back into the closure.
proof fn lemma_closure_reach_collapse(a: Seq<Seq<bool>>, i: int, j: int, k: int)
    requires
        is_square(a),
        0 <= i < a.len(),
        0 <= j < a.len(),
        0 <= k <= a.len(),
        reach(mat_closure(a), i, j, k),
    ensures
        mat_closure(a)[i][j],
    decreases k,
{
    let c = mat_closure(a);
    if k == 0 {
        assert(c[i][j]);
    } else {
        if reach(c, i, j, k - 1) {
            lemma_closure_reach_collapse(a, i, j, k - 1);
        } else {
            assert(reach(c, i, k - 1, k - 1) && reach(c, k - 1, j, k - 1));
            lemma_closure_reach_collapse(a, i, k - 1, k - 1);
            lemma_closure_reach_collapse(a, k - 1, j, k - 1);
            assert(reach(a, i, k - 1, a.len() as int));
            assert(reach(a, k - 1, j, a.len() as int));
            lemma_reach_trans(a, i, k - 1, j, a.len() as int);
        }
    }
}

/// The closure is a fixed point: closing an already-closed relation
/// adds no entry.
pub proof fn lemma_closure_fixed_point(a: Seq<Seq<bool>>)
    requires
        is_square(a),
    ensures
        mat_closure(mat_closure(a)) == mat_closure(a),
{
    let c = mat_closure(a);
    let n = a.len() as int;
    assert forall|i: int, j: int|
        0 <= i < n && 0 <= j < n implies #[trigger] mat_closure(c)[i][j] == c[i][j] by {
        if mat_closure(c)[i][j] {
            assert(reach(c, i, j, n));
            lemma_closure_reach_collapse(a, i, j, n);
        }
        if c[i][j] {
            assert(reach(c, i, j, 0));
            lemma_reach_monotone(c, i, j, 0, n);
            assert(mat_closure(c)[i][j]);
        }
    }
    assert(mat_closure(mat_closure(a)) =~~= mat_closure(a));
}

/// The product of two relations is again square, with the dimension of
/// its first operand.
pub proof fn lemma_product_square(a: Seq<Seq<bool>>, b: Seq<Seq<bool>>)
    ensures
        mat_product(a, b).len() == a.len(),
        is_square(mat_product(a, b)),
{
}

/// The identity relation is neutral for the product, on either side.
pub proof fn lemma_product_identity(a: Seq<Seq<bool>>)
    requires
        is_square(a),
    ensures
        mat_product(a, mat_identity(a.len())) == a,
        mat_product(mat_identity(a.len()), a) == a,
{
    let n = a.len();
    let id = mat_identity(n);
    assert forall|i: int, j: int|
        0 <= i < n && 0 <= j < n implies #[trigger] mat_product(a, id)[i][j] == a[i][j] by {
        if a[i][j] {
            assert(0 <= j < a.len() && a[i][j] && id[j][j]);
            assert(prod_entry(a, id, i, j));
        }
        if prod_entry(a, id, i, j) {
            let k = choose|k: int| 0 <= k < a.len() && a[i][k] && id[k][j];
            assert(k == j);
        }
    }
    assert forall|i: int, j: int|
        0 <= i < n && 0 <= j < n implies #[trigger] mat_product(id, a)[i][j] == a[i][j] by {
        if a[i][j] {
            assert(0 <= i < id.len() && id[i][i] && a[i][j]);
            assert(prod_entry(id, a, i, j));
        }
        if prod_entry(id, a, i, j) {
            let k = choose|k: int| 0 <= k < id.len() && id[i][k] && a[k][j];
            assert(k == i);
        }
    }
    assert(mat_product(a, id) =~~= a);
    assert(mat_product(id, a) =~~= a);
}

/// Elementwise union is commutative.
pub proof fn lemma_sum_commutative(a: Seq<Seq<bool>>, b: Seq<Seq<bool>>)
    requires
        a.len() == b.len(),
    ensures
        mat_sum(a, b) == mat_sum(b, a),
{
    assert(mat_sum(a, b) =~~= mat_sum(b, a));
}

/// The empty relation is neutral for the union.
pub proof fn lemma_sum_zero(a: Seq<Seq<bool>>)
    requires
        is_square(a),
    ensures
        mat_sum(a, mat_zero(a.len())) == a,
{
    assert(mat_sum(a, mat_zero(a.len())) =~~= a);
}

/// Transposing twice gives back the original relation.
pub proof fn lemma_transpose_involution(a: Seq<Seq<bool>>)
    requires
        is_square(a),
    ensures
        mat_transpose(mat_transpose(a)) == a,
{
    assert(mat_transpose(mat_transpose(a)) =~~= a);
}


/// The closure is the least transitive relation containing its
/// argument: any transitive relation over the same symbols that
/// contains the argument contains the closure.
pub proof fn lemma_closure_minimal(a: Seq<Seq<bool>>, t: Seq<Seq<bool>>)
    requires
        is_square(a),
        forall|i: int, j: int| 0 <= i < a.len() && 0 <= j < a.len() && a[i][j] ==> #[trigger] t[i][j],
        forall|i: int, m: int, j: int|
            0 <= i < a.len() && 0 <= m < a.len() && 0 <= j < a.len() && #[trigger] t[i][m]
                && #[trigger] t[m][j] ==> t[i][j],
    ensures
        forall|i: int, j: int|
            0 <= i < a.len() && 0 <= j < a.len() && #[trigger] mat_closure(a)[i][j] ==> t[i][j],
{
    assert forall|i: int, j: int|
        0 <= i < a.len() && 0 <= j < a.len() && #[trigger] mat_closure(a)[i][j] implies t[i][j] by {
        lemma_reach_in_transitive(a, t, i, j, a.len() as int);
    }
}

proof fn lemma_reach_in_transitive(a: Seq<Seq<bool>>, t: Seq<Seq<bool>>, i: int, j: int, k: int)
    requires
        is_square(a),
        forall|i2: int, j2: int|
            0 <= i2 < a.len() && 0 <= j2 < a.len() && a[i2][j2] ==> #[trigger] t[i2][j2],
        forall|i2: int, m: int, j2: int|
            0 <= i2 < a.len() && 0 <= m < a.len() && 0 <= j2 < a.len() && #[trigger] t[i2][m]
                && #[trigger] t[m][j2] ==> t[i2][j2],
        0 <= i < a.len(),
        0 <= j < a.len(),
        0 <= k <= a.len(),
        reach(a, i, j, k),
    ensures
        t[i][j],
    decreases k,
{
    if k == 0 {
        assert(a[i][j]);
    } else {
        if reach(a, i, j, k - 1) {
            lemma_reach_in_transitive(a, t, i, j, k - 1);
        } else {
            assert(reach(a, i, k - 1, k - 1) && reach(a, k - 1, j, k - 1));
            lemma_reach_in_transitive(a, t, i, k - 1, k - 1);
            lemma_reach_in_transitive(a, t, k - 1, j, k - 1);
        }
    }
}

} // verus!
