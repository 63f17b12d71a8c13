//! Matrices of cardinalities.
use vstd::prelude::*;

verus! {

/// A matrix in row-major order.
#[verifier::ext_equal]
pub struct Mat {
    pub rows: int,
    pub cols: int,
    pub blocks: Seq<int>,
}

impl Mat {
    pub open spec fn g(self, i: int, j: int) -> int {
        self.blocks[i * self.cols + j]
    }

    /// The matrix with the given entries.
    pub open spec fn from(rows: int, cols: int, f: spec_fn(int, int) -> int) -> Mat {
        Mat { rows, cols, blocks: Seq::new((rows * cols) as nat, |k: int| f(k / cols, k % cols)) }
    }

    pub open spec fn wf(self) -> bool {
        &&& self.rows >= 0
        &&& self.cols >= 0
        &&& self.blocks.len() == self.rows * self.cols
    }

    pub open spec fn id(n: int) -> Mat {
        Mat::from(n, n, |i: int, j: int| if i == j { 1int } else { 0 })
    }

    /// `Σ_j a_ij · b_jk`.
    pub open spec fn dot(a: Mat, b: Mat, i: int, k: int) -> int {
        crate::theory::sums::sum(a.cols, |j: int| a.g(i, j) * b.g(j, k))
    }

    pub open spec fn times(a: Mat, b: Mat) -> Mat {
        Mat::from(a.rows, b.cols, |i: int, k: int| Mat::dot(a, b, i, k))
    }

    /// `Σ_j m_ij · y_j`.
    pub open spec fn weight(self, y: Seq<int>, i: int) -> int {
        crate::theory::sums::sum(self.cols, |j: int| self.g(i, j) * y[j])
    }

    pub open spec fn act(self, y: Seq<int>) -> Seq<int> {
        Seq::new(self.rows as nat, |i: int| self.weight(y, i))
    }
}

/// A matrix made from its entries has those entries.
pub proof fn lemma_from(rows: int, cols: int, f: spec_fn(int, int) -> int)
    requires
        rows >= 0,
        cols >= 0,
    ensures
        Mat::from(rows, cols, f).wf(),
        forall|i: int, j: int|
            0 <= i < rows && 0 <= j < cols ==> #[trigger] Mat::from(rows, cols, f).g(i, j) == f(i, j),
{
    assert(rows * cols >= 0) by (nonlinear_arith) requires rows >= 0, cols >= 0;
    assert forall|i: int, j: int| 0 <= i < rows && 0 <= j < cols implies #[trigger] Mat::from(rows, cols, f).g(i, j) == f(
        i,
        j,
    ) by {
        crate::theory::limits::lemma_pair_index(rows, cols, i, j);
    }
}

/// Matrices with the same entries are equal.
pub proof fn lemma_mat_ext(a: Mat, b: Mat)
    requires
        a.wf(),
        b.wf(),
        a.rows == b.rows,
        a.cols == b.cols,
        forall|i: int, j: int| 0 <= i < a.rows && 0 <= j < a.cols ==> #[trigger] a.g(i, j) == b.g(i, j),
    ensures
        a == b,
{
    assert forall|k: int| 0 <= k < a.blocks.len() implies a.blocks[k] == b.blocks[k] by {
        crate::theory::limits::lemma_unpair(a.rows, a.cols, k);
        assert(a.g(k / a.cols, k % a.cols) == b.g(k / a.cols, k % a.cols));
    }
    assert(a.blocks =~= b.blocks);
}

/// The identity matrix acts as the identity.
pub proof fn law_identity_acts(n: int, y: Seq<int>)
    requires
        n >= 0,
        y.len() == n,
    ensures
        Mat::id(n).act(y) == y,
{
    let e = Mat::id(n);
    let one = |i: int, j: int| if i == j { 1int } else { 0 };
    lemma_from(n, n, one);
    assert forall|i: int| 0 <= i < n implies e.act(y)[i] == y[i] by {
        let f = |j: int| e.g(i, j) * y[j];
        assert forall|j: int| 0 <= j < n && j != i implies #[trigger] f(j) == 0 by {
            assert(e.g(i, j) == one(i, j));
        }
        crate::theory::sums::lemma_sum_one(n, i, f);
        assert(e.g(i, i) == one(i, i));
    }
    assert(e.act(y) =~= y);
}

/// Acting by a product is acting in turn.
pub proof fn law_product_acts(a: Mat, b: Mat, y: Seq<int>)
    requires
        a.wf(),
        b.wf(),
        a.cols == b.rows,
        y.len() == b.cols,
    ensures
        Mat::times(a, b).act(y) == a.act(b.act(y)),
{
    let ab = Mat::times(a, b);
    let entry = |i: int, k: int| Mat::dot(a, b, i, k);
    lemma_from(a.rows, b.cols, entry);
    assert forall|i: int| 0 <= i < a.rows implies ab.act(y)[i] == a.act(b.act(y))[i] by {
        let f = |k: int, j: int| a.g(i, j) * b.g(j, k) * y[k];
        // Σ_k (Σ_j a_ij b_jk) y_k
        let lhs = |k: int| ab.g(i, k) * y[k];
        let lhs2 = |k: int| crate::theory::sums::sum(a.cols, |j: int| f(k, j));
        assert forall|k: int| 0 <= k < b.cols implies #[trigger] lhs(k) == lhs2(k) by {
            assert(ab.g(i, k) == entry(i, k));
            let row = |j: int| a.g(i, j) * b.g(j, k);
            crate::theory::sums::lemma_sum_scale(a.cols, y[k], row);
            let scaled = |j: int| y[k] * row(j);
            assert forall|j: int| 0 <= j < a.cols implies #[trigger] scaled(j) == f(k, j) by {
                assert(y[k] * (a.g(i, j) * b.g(j, k)) == a.g(i, j) * b.g(j, k) * y[k]) by (nonlinear_arith);
            }
            crate::theory::sums::lemma_sum_ext(a.cols, scaled, |j: int| f(k, j));
            crate::theory::sums::lemma_sum_ext(a.cols, row, |j: int| a.g(i, j) * b.g(j, k));
            let d = Mat::dot(a, b, i, k);
            assert(d * y[k] == y[k] * d) by (nonlinear_arith);
        }
        crate::theory::sums::lemma_sum_ext(b.cols, lhs, lhs2);
        // Σ_j a_ij (Σ_k b_jk y_k)
        let rhs = |j: int| a.g(i, j) * b.act(y)[j];
        let rhs2 = |j: int| crate::theory::sums::sum(b.cols, |k: int| f(k, j));
        assert forall|j: int| 0 <= j < a.cols implies #[trigger] rhs(j) == rhs2(j) by {
            let col = |k: int| b.g(j, k) * y[k];
            crate::theory::sums::lemma_sum_scale(b.cols, a.g(i, j), col);
            let scaled = |k: int| a.g(i, j) * col(k);
            assert forall|k: int| 0 <= k < b.cols implies #[trigger] scaled(k) == f(k, j) by {
                assert(a.g(i, j) * (b.g(j, k) * y[k]) == a.g(i, j) * b.g(j, k) * y[k]) by (nonlinear_arith);
            }
            crate::theory::sums::lemma_sum_ext(b.cols, scaled, |k: int| f(k, j));
            crate::theory::sums::lemma_sum_ext(b.cols, col, |k: int| b.g(j, k) * y[k]);
        }
        crate::theory::sums::lemma_sum_ext(a.cols, rhs, rhs2);
        crate::theory::sums::lemma_sum_swap(b.cols, a.cols, f);
        crate::theory::sums::lemma_sum_ext(b.cols, lhs2, |k: int| crate::theory::sums::sum(a.cols, |j: int| f(k, j)));
        crate::theory::sums::lemma_sum_ext(a.cols, rhs2, |j: int| crate::theory::sums::sum(b.cols, |k: int| f(k, j)));
        crate::theory::sums::lemma_sum_ext(b.cols, lhs, |k: int| ab.g(i, k) * y[k]);
        crate::theory::sums::lemma_sum_ext(a.cols, rhs, |j: int| a.g(i, j) * b.act(y)[j]);
    }
    assert(ab.act(y) =~= a.act(b.act(y)));
}

/// The columns of a matrix, as families.
pub open spec fn column(m: Mat, k: int) -> Seq<int> {
    Seq::new(m.rows as nat, |j: int| m.g(j, k))
}

/// Multiplication of matrices is associative, and identity matrices are
/// neutral on both sides.
pub proof fn law_matrix_category(a: Mat, b: Mat, c: Mat)
    requires
        a.wf(),
        b.wf(),
        c.wf(),
        a.cols == b.rows,
        b.cols == c.rows,
    ensures
        Mat::times(a, Mat::id(a.cols)) == a,
        Mat::times(Mat::id(a.rows), a) == a,
        Mat::times(Mat::times(a, b), c) == Mat::times(a, Mat::times(b, c)),
{
    let one = |i: int, j: int| if i == j { 1int } else { 0 };
    lemma_from(a.cols, a.cols, one);
    lemma_from(a.rows, a.rows, one);
    let e = Mat::id(a.cols);
    let d = Mat::id(a.rows);
    let ae = Mat::times(a, e);
    let da = Mat::times(d, a);
    lemma_from(a.rows, a.cols, |i: int, k: int| Mat::dot(a, e, i, k));
    lemma_from(a.rows, a.cols, |i: int, k: int| Mat::dot(d, a, i, k));
    assert forall|i: int, k: int| 0 <= i < a.rows && 0 <= k < a.cols implies #[trigger] ae.g(i, k) == a.g(i, k) by {
        let f = |j: int| a.g(i, j) * e.g(j, k);
        assert forall|j: int| 0 <= j < a.cols && j != k implies #[trigger] f(j) == 0 by {
            assert(e.g(j, k) == one(j, k));
            assert(a.g(i, j) * 0 == 0) by (nonlinear_arith);
        }
        crate::theory::sums::lemma_sum_one(a.cols, k, f);
        assert(e.g(k, k) == one(k, k));
        assert(f(k) == a.g(i, k));
    }
    lemma_mat_ext(ae, a);
    assert forall|i: int, k: int| 0 <= i < a.rows && 0 <= k < a.cols implies #[trigger] da.g(i, k) == a.g(i, k) by {
        let f = |j: int| d.g(i, j) * a.g(j, k);
        assert forall|j: int| 0 <= j < a.rows && j != i implies #[trigger] f(j) == 0 by {
            assert(d.g(i, j) == one(i, j));
        }
        crate::theory::sums::lemma_sum_one(a.rows, i, f);
        assert(d.g(i, i) == one(i, i));
        assert(f(i) == a.g(i, k));
    }
    lemma_mat_ext(da, a);
    let ab = Mat::times(a, b);
    let bc = Mat::times(b, c);
    let l = Mat::times(ab, c);
    let r = Mat::times(a, bc);
    lemma_from(a.rows, b.cols, |i: int, k: int| Mat::dot(a, b, i, k));
    lemma_from(b.rows, c.cols, |i: int, k: int| Mat::dot(b, c, i, k));
    lemma_from(a.rows, c.cols, |i: int, k: int| Mat::dot(ab, c, i, k));
    lemma_from(a.rows, c.cols, |i: int, k: int| Mat::dot(a, bc, i, k));
    assert forall|i: int, k: int| 0 <= i < a.rows && 0 <= k < c.cols implies #[trigger] l.g(i, k) == r.g(i, k) by {
        let y = column(c, k);
        law_product_acts(a, b, y);
        assert(ab.act(y)[i] == a.act(b.act(y))[i]);
        crate::theory::sums::lemma_sum_ext(ab.cols, |j: int| ab.g(i, j) * c.g(j, k), |j: int| ab.g(i, j) * y[j]);
        let p = |j: int| a.g(i, j) * bc.g(j, k);
        let q = |j: int| a.g(i, j) * b.act(y)[j];
        assert forall|j: int| 0 <= j < a.cols implies #[trigger] p(j) == q(j) by {
            assert(bc.g(j, k) == Mat::dot(b, c, j, k));
            crate::theory::sums::lemma_sum_ext(b.cols, |t: int| b.g(j, t) * c.g(t, k), |t: int| b.g(j, t) * y[t]);
        }
        crate::theory::sums::lemma_sum_ext(a.cols, p, q);
        crate::theory::sums::lemma_sum_ext(a.cols, p, |j: int| a.g(i, j) * bc.g(j, k));
        crate::theory::sums::lemma_sum_ext(a.cols, q, |j: int| a.g(i, j) * b.act(y)[j]);
    }
    lemma_mat_ext(l, r);
}

/// A one-by-one matrix acts by multiplication: it is a cartesian residual.
pub proof fn law_terminal_index(m: int, y: int)
    ensures
        (Mat { rows: 1, cols: 1, blocks: seq![m] }).act(seq![y]) == seq![m * y],
{
    let a = Mat { rows: 1, cols: 1, blocks: seq![m] };
    let f = |j: int| a.g(0, j) * seq![y][j];
    crate::theory::sums::lemma_sum_one(1, 0, f);
    assert(a.act(seq![y]) =~= seq![m * y]);
}

} // verus!
