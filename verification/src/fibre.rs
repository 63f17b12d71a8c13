//! Fibre optics as dependent optics on a matrix bicategory
//! (Braithwaite, Capucci, Gavranović, Hedges and Rischel).
//!
//! A 1-cell `I → J` is an `I × J` matrix of cardinalities. Composition sums
//! the products of entries. Reindexing a family is matrix–vector multiplication.
//! A terminal index set is the one-object delooping, whose blocks are ordinary
//! cartesian residuals.
use vstd::prelude::*;
use crate::finset;
use crate::theory::matrices::Mat;

verus! {

#[derive(Eq, Debug)]
pub struct Matrix {
    pub rows: u32,
    pub cols: u32,
    pub blocks: Vec<u32>,
}

impl View for Matrix {
    type V = Mat;

    open spec fn view(&self) -> Mat {
        Mat { rows: self.rows as int, cols: self.cols as int, blocks: crate::theory::fun::ints(self.blocks@) }
    }
}

impl Clone for Matrix {
    fn clone(&self) -> (r: Matrix)
        ensures
            r@ == self@,
    {
        let blocks = self.blocks.clone();
        assert(blocks@ =~= self.blocks@);
        Matrix { rows: self.rows, cols: self.cols, blocks }
    }
}

impl PartialEq for Matrix {
    fn eq(&self, other: &Matrix) -> (r: bool) {
        proof {
            crate::monoid::lemma_ints_eq(self.blocks@, other.blocks@);
        }
        self.rows == other.rows && self.cols == other.cols && finset::same_words(&self.blocks, &other.blocks)
    }
}

impl vstd::std_specs::cmp::PartialEqSpecImpl for Matrix {
    open spec fn obeys_eq_spec() -> bool {
        true
    }

    open spec fn eq_spec(&self, other: &Matrix) -> bool {
        self@ == other@
    }
}

impl Matrix {
    pub open spec fn wf(&self) -> bool {
        self@.wf() && self.rows * self.cols <= u32::MAX
    }

    pub fn get(&self, i: u32, j: u32) -> (r: u32)
        requires
            i * self.cols + j < self.blocks@.len(),
            i * self.cols + j <= u32::MAX,
        ensures
            r == self@.g(i as int, j as int),
    {
        proof {
            assert(0 <= i * self.cols) by (nonlinear_arith) requires i >= 0, self.cols >= 0;
        }
        self.blocks[(i * self.cols + j) as usize]
    }
}

/// The identity matrix.
pub fn identity(n: u32) -> (r: Matrix)
    requires
        n * n <= u32::MAX,
    ensures
        r@ == Mat::id(n as int),
        r.wf(),
{
    proof {
        assert(0 <= n * n) by (nonlinear_arith);
    }
    let total: u32 = n * n;
    let mut blocks: Vec<u32> = Vec::new();
    let mut k: u32 = 0;
    while k < total
        invariant
            k <= total,
            total == n * n,
            blocks@.len() == k,
            forall|j: int| 0 <= j < k ==> blocks@[j] == if j / n as int == j % n as int { 1int } else { 0 },
        decreases total - k,
    {
        proof {
            crate::theory::limits::lemma_unpair(n as int, n as int, k as int);
        }
        blocks.push(if k / n == k % n { 1 } else { 0 });
        k = k + 1;
    }
    let r = Matrix { rows: n, cols: n, blocks };
    assert(r@.blocks =~= Mat::id(n as int).blocks);
    r
}

/// Every entry of a product fits in a machine word.
pub open spec fn product_fits(a: Mat, b: Mat) -> bool {
    &&& a.rows * b.cols <= u32::MAX
    &&& forall|i: int, k: int| 0 <= i < a.rows && 0 <= k < b.cols ==> #[trigger] Mat::dot(a, b, i, k) <= u32::MAX
}

/// One entry of a product.
fn dot(a: &Matrix, b: &Matrix, i: u32, k: u32) -> (r: u32)
    requires
        a.wf(),
        b.wf(),
        a.cols == b.rows,
        i < a.rows,
        k < b.cols,
        Mat::dot(a@, b@, i as int, k as int) <= u32::MAX,
    ensures
        r == Mat::dot(a@, b@, i as int, k as int),
{
    let ghost f = |j: int| a@.g(i as int, j) * b@.g(j, k as int);
    proof {
        assert forall|j: int| 0 <= j < a.cols implies #[trigger] f(j) >= 0 by {
            lemma_entry(a, i as int, j);
            lemma_entry(b, j, k as int);
            assert(a@.g(i as int, j) * b@.g(j, k as int) >= 0) by (nonlinear_arith)
                requires a@.g(i as int, j) >= 0, b@.g(j, k as int) >= 0;
        }
    }
    let mut sum: u32 = 0;
    let mut j: u32 = 0;
    while j < a.cols
        invariant
            a.wf(),
            b.wf(),
            a.cols == b.rows,
            i < a.rows,
            k < b.cols,
            j <= a.cols,
            f == (|j: int| a@.g(i as int, j) * b@.g(j, k as int)),
            forall|l: int| 0 <= l < a.cols ==> #[trigger] f(l) >= 0,
            Mat::dot(a@, b@, i as int, k as int) <= u32::MAX,
            sum == crate::theory::sums::sum(j as int, f),
        decreases a.cols - j,
    {
        proof {
            crate::theory::sums::lemma_sum_part(a.cols as int, f, j as int);
            assert(crate::theory::sums::sum(a.cols as int, f) == Mat::dot(a@, b@, i as int, k as int));
            assert(f(j as int) >= 0);
            lemma_entry(a, i as int, j as int);
            lemma_entry(b, j as int, k as int);
        }
        let x: u32 = a.get(i, j);
        let y: u32 = b.get(j, k);
        assert(x * y == f(j as int));
        sum = sum + x * y;
        j = j + 1;
    }
    sum
}

/// An entry of a matrix of cardinalities stands in its table and is not
/// negative.
pub proof fn lemma_entry(m: &Matrix, i: int, j: int)
    requires
        m.wf(),
        0 <= i < m.rows,
        0 <= j < m.cols,
    ensures
        0 <= i * m.cols + j < m.blocks@.len(),
        i * m.cols + j <= u32::MAX,
        m@.g(i, j) == m.blocks@[i * m.cols + j],
        m@.g(i, j) >= 0,
{
    crate::theory::limits::lemma_pair_index(m.rows as int, m.cols as int, i, j);
    assert(m@.blocks.len() == m.blocks@.len());
}

/// Composition of 1-cells: `(ab)_ik = Σ_j a_ij · b_jk`.
pub fn multiply(a: &Matrix, b: &Matrix) -> (r: Matrix)
    requires
        a.wf(),
        b.wf(),
        a.cols == b.rows,
        product_fits(a@, b@),
    ensures
        r@ == Mat::times(a@, b@),
        r.wf(),
{
    proof {
        assert(0 <= a.rows * b.cols) by (nonlinear_arith) requires a.rows >= 0, b.cols >= 0;
    }
    let total: u32 = a.rows * b.cols;
    let mut blocks: Vec<u32> = Vec::new();
    let mut t: u32 = 0;
    while t < total
        invariant
            a.wf(),
            b.wf(),
            a.cols == b.rows,
            product_fits(a@, b@),
            total == a.rows * b.cols,
            t <= total,
            blocks@.len() == t,
            forall|j: int| 0 <= j < t ==> blocks@[j] == Mat::dot(a@, b@, j / b.cols as int, j % b.cols as int),
        decreases total - t,
    {
        proof {
            crate::theory::limits::lemma_unpair(a.rows as int, b.cols as int, t as int);
        }
        let i: u32 = t / b.cols;
        let k: u32 = t % b.cols;
        assert(Mat::dot(a@, b@, i as int, k as int) <= u32::MAX);
        blocks.push(dot(a, b, i, k));
        t = t + 1;
    }
    let r = Matrix { rows: a.rows, cols: b.cols, blocks };
    assert(r@.blocks =~= Mat::times(a@, b@).blocks);
    r
}

/// Every part of the family that a matrix sends a family to fits in a machine
/// word.
pub open spec fn act_fits(m: Mat, y: Seq<int>) -> bool {
    forall|i: int| 0 <= i < m.rows ==> #[trigger] m.weight(y, i) <= u32::MAX
}

/// `(M • Y)_i = Σ_j |M_ij| · |Y_j|`.
pub fn act(m: &Matrix, family: &[u32]) -> (r: Vec<u32>)
    requires
        m.wf(),
        family@.len() == m.cols,
        act_fits(m@, crate::theory::fun::ints(family@)),
    ensures
        crate::theory::fun::ints(r@) == m@.act(crate::theory::fun::ints(family@)),
{
    let ghost y = crate::theory::fun::ints(family@);
    let mut out: Vec<u32> = Vec::new();
    let mut i: u32 = 0;
    while i < m.rows
        invariant
            m.wf(),
            y == crate::theory::fun::ints(family@),
            family@.len() == m.cols,
            act_fits(m@, y),
            i <= m.rows,
            out@.len() == i,
            forall|l: int| 0 <= l < i ==> out@[l] == m@.weight(y, l),
        decreases m.rows - i,
    {
        let ghost f = |j: int| m@.g(i as int, j) * y[j];
        proof {
            assert(m@.weight(y, i as int) <= u32::MAX);
            assert forall|j: int| 0 <= j < m.cols implies #[trigger] f(j) >= 0 by {
                lemma_entry(m, i as int, j);
                assert(m@.g(i as int, j) * y[j] >= 0) by (nonlinear_arith)
                    requires m@.g(i as int, j) >= 0, y[j] >= 0;
            }
        }
        let mut sum: u32 = 0;
        let mut j: u32 = 0;
        while j < m.cols
            invariant
                m.wf(),
                y == crate::theory::fun::ints(family@),
                family@.len() == m.cols,
                i < m.rows,
                j <= m.cols,
                f == (|j: int| m@.g(i as int, j) * y[j]),
                forall|l: int| 0 <= l < m.cols ==> #[trigger] f(l) >= 0,
                m@.weight(y, i as int) <= u32::MAX,
                sum == crate::theory::sums::sum(j as int, f),
            decreases m.cols - j,
        {
            proof {
                crate::theory::sums::lemma_sum_part(m.cols as int, f, j as int);
                assert(crate::theory::sums::sum(m.cols as int, f) == m@.weight(y, i as int));
                assert(f(j as int) >= 0);
                lemma_entry(m, i as int, j as int);
            }
            let a: u32 = m.get(i, j);
            let b: u32 = family[j as usize];
            assert(a * b == f(j as int));
            sum = sum + a * b;
            j = j + 1;
        }
        out.push(sum);
        i = i + 1;
    }
    assert(crate::theory::fun::ints(out@) =~= m@.act(y));
    out
}

/// Every matrix with entries at most `max_entry`, in counting order.
pub open spec fn all_matrices(rows: int, cols: int, max_entry: int) -> Seq<Mat> {
    let ts = crate::theory::limits::counted((rows * cols) as nat, max_entry + 1);
    Seq::new(ts.len(), |k: int| Mat { rows, cols, blocks: ts[k] })
}

/// The listing holds each matrix of the given shape and entries once.
pub proof fn law_all_matrices(rows: int, cols: int, max_entry: int)
    requires
        rows >= 0,
        cols >= 0,
        max_entry >= 0,
    ensures
        all_matrices(rows, cols, max_entry).no_duplicates(),
        forall|m: Mat| #[trigger] all_matrices(rows, cols, max_entry).contains(m) <==> {
            &&& m.wf()
            &&& m.rows == rows
            &&& m.cols == cols
            &&& forall|k: int| 0 <= k < m.blocks.len() ==> 0 <= #[trigger] m.blocks[k] <= max_entry
        },
{
    let n = (rows * cols) as nat;
    assert(rows * cols >= 0) by (nonlinear_arith) requires rows >= 0, cols >= 0;
    let ts = crate::theory::limits::counted(n, max_entry + 1);
    let all = all_matrices(rows, cols, max_entry);
    crate::theory::limits::law_counted(n, max_entry + 1);
    assert forall|i: int, j: int| 0 <= i < all.len() && 0 <= j < all.len() && i != j implies all[i] != all[j] by {
        if i < j {
            assert(ts[i] != ts[j]);
        } else {
            assert(ts[j] != ts[i]);
        }
    }
    assert forall|m: Mat| #[trigger] all.contains(m) <==> {
        &&& m.wf()
        &&& m.rows == rows
        &&& m.cols == cols
        &&& forall|k: int| 0 <= k < m.blocks.len() ==> 0 <= #[trigger] m.blocks[k] <= max_entry
    } by {
        if all.contains(m) {
            let k = choose|k: int| 0 <= k < all.len() && all[k] == m;
            assert(crate::theory::limits::is_table(ts[k], n as int, max_entry + 1));
        }
        if m.wf() && m.rows == rows && m.cols == cols && (forall|k: int|
            0 <= k < m.blocks.len() ==> 0 <= #[trigger] m.blocks[k] <= max_entry) {
            assert(crate::theory::limits::is_table(m.blocks, n as int, max_entry + 1));
            assert(ts.contains(m.blocks));
            let k = choose|k: int| 0 <= k < ts.len() && ts[k] == m.blocks;
            assert(all[k] == m);
        }
    }
}

pub fn matrices(rows: u32, cols: u32, max_entry: u32) -> (r: Vec<Matrix>)
    requires
        rows * cols <= u32::MAX,
        max_entry < u32::MAX,
    ensures
        crate::theory::listing::views(r@) == all_matrices(rows as int, cols as int, max_entry as int),
{
    proof {
        assert(0 <= rows * cols) by (nonlinear_arith) requires rows >= 0, cols >= 0;
    }
    let tables = finset::counted_tables(rows * cols, max_entry + 1);
    let ghost all = all_matrices(rows as int, cols as int, max_entry as int);
    let mut out: Vec<Matrix> = Vec::new();
    let mut k: usize = 0;
    while k < tables.len()
        invariant
            k <= tables.len(),
            all == all_matrices(rows as int, cols as int, max_entry as int),
            finset::tables_are(tables@, crate::theory::limits::counted((rows * cols) as nat, max_entry + 1)),
            out@.len() == k,
            forall|j: int| 0 <= j < k ==> (#[trigger] out@[j])@ == all[j],
        decreases tables.len() - k,
    {
        let blocks = tables[k].clone();
        assert(blocks@ =~= tables@[k as int]@);
        out.push(Matrix { rows, cols, blocks });
        k = k + 1;
    }
    assert(crate::theory::listing::views(out@) =~= all);
    out
}

} // verus!
