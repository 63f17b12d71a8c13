//! Finite-dimensional vector spaces over `GF(2)`.
//!
//! Maps are stored by the images of basis vectors, each a bitset. Dimension 0
//! has a single map, the zero map, including into or out of the zero space.
use vstd::prelude::*;
use crate::finset;
use crate::theory::linear::Gf;

verus! {

#[derive(Eq, Debug)]
pub struct Lin {
    pub dom: u32,
    pub cod: u32,
    pub columns: Vec<u32>,
}

impl View for Lin {
    type V = Gf;

    open spec fn view(&self) -> Gf {
        Gf {
            dom: self.dom as int,
            cod: self.cod as int,
            cols: Seq::new(
                self.columns@.len(),
                |j: int| Seq::new(self.cod as nat, |i: int| crate::theory::linear::bit(self.columns@[j] as int, i)),
            ),
        }
    }
}

impl Clone for Lin {
    fn clone(&self) -> (r: Lin)
        ensures
            r.dom == self.dom,
            r.cod == self.cod,
            r.columns@ == self.columns@,
            r@ == self@,
    {
        let columns = self.columns.clone();
        assert(columns@ =~= self.columns@);
        Lin { dom: self.dom, cod: self.cod, columns }
    }
}

impl PartialEq for Lin {
    fn eq(&self, other: &Lin) -> (r: bool) {
        self.dom == other.dom && self.cod == other.cod && finset::same_words(&self.columns, &other.columns)
    }
}

impl vstd::std_specs::cmp::PartialEqSpecImpl for Lin {
    open spec fn obeys_eq_spec() -> bool {
        true
    }

    open spec fn eq_spec(&self, other: &Lin) -> bool {
        self.dom == other.dom && self.cod == other.cod && self.columns@ == other.columns@
    }
}

impl Lin {
    /// One column for each basis vector, with no bit outside the codomain.
    pub open spec fn wf(&self) -> bool {
        &&& self.columns@.len() == self.dom
        &&& forall|j: int, i: int|
            0 <= j < self.dom && i >= self.cod ==> !#[trigger] crate::theory::linear::bit(self.columns@[j] as int, i)
    }

    /// The image of a vector: the sum of the columns that it selects.
    pub fn apply_vec(&self, vector: u32) -> (r: u32)
        requires
            self.columns@.len() <= 32,
        ensures
            forall|i: int|
                i >= 0 ==> #[trigger] crate::theory::linear::bit(r as int, i) == crate::theory::sums::parity(
                    self.columns@.len() as int,
                    |j: int|
                        crate::theory::linear::bit(vector as int, j) && crate::theory::linear::bit(
                            self.columns@[j] as int,
                            i,
                        ),
                ),
    {
        let mut acc: u32 = 0;
        let mut j: usize = 0;
        proof {
            assert forall|i: int| i >= 0 implies !#[trigger] crate::theory::linear::bit(acc as int, i) by {
                crate::theory::linear::lemma_bit_zero(i);
            }
        }
        while j < self.columns.len()
            invariant
                j <= self.columns.len(),
                self.columns@.len() <= 32,
                forall|i: int|
                    i >= 0 ==> #[trigger] crate::theory::linear::bit(acc as int, i) == crate::theory::sums::parity(
                        j as int,
                        |j: int|
                            crate::theory::linear::bit(vector as int, j) && crate::theory::linear::bit(
                                self.columns@[j] as int,
                                i,
                            ),
                    ),
            decreases self.columns.len() - j,
        {
            let col: u32 = self.columns[j];
            let s: u32 = j as u32;
            let ghost before = acc;
            proof {
                crate::theory::linear::lemma_bit_shift(vector, s);
            }
            if (vector >> s) & 1 == 1 {
                acc = acc ^ col;
            }
            proof {
                assert forall|i: int| i >= 0 implies #[trigger] crate::theory::linear::bit(acc as int, i)
                    == crate::theory::sums::parity(
                    j + 1,
                    |j: int|
                        crate::theory::linear::bit(vector as int, j) && crate::theory::linear::bit(
                            self.columns@[j] as int,
                            i,
                        ),
                ) by {
                    assert(crate::theory::linear::bit(before as int, i) == crate::theory::sums::parity(
                        j as int,
                        |j: int|
                            crate::theory::linear::bit(vector as int, j) && crate::theory::linear::bit(
                                self.columns@[j] as int,
                                i,
                            ),
                    ));
                    if crate::theory::linear::bit(vector as int, j as int) {
                        lemma_xor_bits(before, col, i);
                    }
                }
            }
            j = j + 1;
        }
        acc
    }
}

/// Bits of an exclusive or, at every place.
pub proof fn lemma_xor_bits(a: u32, b: u32, i: int)
    requires
        i >= 0,
    ensures
        crate::theory::linear::bit((a ^ b) as int, i) == (crate::theory::linear::bit(a as int, i)
            != crate::theory::linear::bit(b as int, i)),
{
    if i < 32 {
        crate::theory::linear::lemma_bit_xor(a, b, i as u32);
    } else {
        vstd::arithmetic::power2::lemma2_to64();
        crate::theory::linear::lemma_high_bits(32, a as int, i);
        crate::theory::linear::lemma_high_bits(32, b as int, i);
        crate::theory::linear::lemma_high_bits(32, (a ^ b) as int, i);
    }
}

/// Bits of a power of two, at every place.
pub proof fn lemma_one_bits(k: u32, i: int)
    requires
        k < 32,
        i >= 0,
    ensures
        crate::theory::linear::bit((1u32 << k) as int, i) == (i == k),
{
    if i < 32 {
        crate::theory::linear::lemma_bit_one(k, i as u32);
    } else {
        vstd::arithmetic::power2::lemma2_to64();
        crate::theory::linear::lemma_high_bits(32, (1u32 << k) as int, i);
    }
}

/// Machine columns with the same bits are equal.
pub proof fn lemma_lin_ext(f: &Lin, g: &Lin)
    requires
        f.wf(),
        g.wf(),
        f@ == g@,
    ensures
        f.columns@ == g.columns@,
        f.dom == g.dom,
        f.cod == g.cod,
{
    vstd::arithmetic::power2::lemma2_to64();
    assert(f@.dom == g@.dom && f@.cod == g@.cod);
    assert forall|j: int| 0 <= j < f.dom implies f.columns@[j] == g.columns@[j] by {
        let a = f.columns@[j] as int;
        let b = g.columns@[j] as int;
        assert forall|i: int| 0 <= i < 32 implies #[trigger] crate::theory::linear::bit(a, i) == crate::theory::linear::bit(
            b,
            i,
        ) by {
            if i < f.cod {
                assert(f@.cols[j][i] == crate::theory::linear::bit(f.columns@[j] as int, i));
                assert(g@.cols[j][i] == crate::theory::linear::bit(g.columns@[j] as int, i));
            } else {
                assert(!crate::theory::linear::bit(f.columns@[j] as int, i));
                assert(!crate::theory::linear::bit(g.columns@[j] as int, i));
            }
        }
        crate::theory::linear::lemma_bits_determine(32, a, b);
    }
    assert(f.columns@ =~= g.columns@);
}

pub fn zero(dom: u32, cod: u32) -> (r: Lin)
    ensures
        r@ == Gf::zero(dom as int, cod as int),
        r.wf(),
{
    let columns: Vec<u32> = vec![0; dom as usize];
    let r = Lin { dom, cod, columns };
    proof {
        assert forall|j: int, i: int| 0 <= j < dom && i >= 0 implies !#[trigger] crate::theory::linear::bit(
            r.columns@[j] as int,
            i,
        ) by {
            crate::theory::linear::lemma_bit_zero(i);
        }
        crate::theory::linear::lemma_gf_ext(r@, Gf::zero(dom as int, cod as int));
    }
    r
}

pub fn identity(n: u32) -> (r: Lin)
    requires
        n <= 32,
    ensures
        r@ == Gf::id(n as int),
        r.wf(),
{
    let mut columns: Vec<u32> = Vec::new();
    let mut i: u32 = 0;
    while i < n
        invariant
            i <= n <= 32,
            columns@.len() == i,
            forall|j: int| 0 <= j < i ==> columns@[j] == 1u32 << (j as u32),
        decreases n - i,
    {
        columns.push(1u32 << i);
        i = i + 1;
    }
    let r = Lin { dom: n, cod: n, columns };
    proof {
        assert forall|j: int, i: int| 0 <= j < n && i >= 0 implies #[trigger] crate::theory::linear::bit(
            r.columns@[j] as int,
            i,
        ) == (i == j) by {
            lemma_one_bits(j as u32, i);
        }
        crate::theory::linear::lemma_gf_ext(r@, Gf::id(n as int));
    }
    r
}

/// `g ∘ f`.
pub fn compose(g: &Lin, f: &Lin) -> (r: Lin)
    requires
        f.wf(),
        g.wf(),
        f.cod == g.dom,
        g.dom <= 32,
    ensures
        r@ == g@.o(f@),
        r.wf(),
{
    let mut columns: Vec<u32> = Vec::new();
    let mut j: u32 = 0;
    while j < f.dom
        invariant
            f.wf(),
            g.wf(),
            f.cod == g.dom,
            g.dom <= 32,
            j <= f.dom,
            columns@.len() == j,
            forall|l: int, i: int|
                0 <= l < j && i >= 0 ==> #[trigger] crate::theory::linear::bit(columns@[l] as int, i)
                    == crate::theory::sums::parity(
                    g.dom as int,
                    |k: int|
                        crate::theory::linear::bit(f.columns@[l] as int, k) && crate::theory::linear::bit(
                            g.columns@[k] as int,
                            i,
                        ),
                ),
        decreases f.dom - j,
    {
        columns.push(g.apply_vec(f.columns[j as usize]));
        j = j + 1;
    }
    let r = Lin { dom: f.dom, cod: g.cod, columns };
    proof {
        let want = g@.o(f@);
        assert forall|l: int, i: int| 0 <= l < f.dom && i >= g.cod implies !#[trigger] crate::theory::linear::bit(
            r.columns@[l] as int,
            i,
        ) by {
            let h = |k: int|
                crate::theory::linear::bit(f.columns@[l] as int, k) && crate::theory::linear::bit(g.columns@[k] as int, i);
            crate::theory::sums::lemma_parity_ext(g.dom as int, h, |k: int| false);
            crate::theory::sums::lemma_parity_none(g.dom as int);
        }
        assert forall|i: int, j: int| 0 <= i < g.cod && 0 <= j < f.dom implies #[trigger] r@.e(i, j) == want.e(i, j) by {
            let h = |k: int|
                crate::theory::linear::bit(f.columns@[j] as int, k) && crate::theory::linear::bit(g.columns@[k] as int, i);
            crate::theory::sums::lemma_parity_ext(g.dom as int, h, |k: int| g@.e(i, k) && f@.e(k, j));
            assert(crate::theory::linear::bit(r.columns@[j] as int, i) == crate::theory::sums::parity(g.dom as int, h));
        }
        crate::theory::linear::lemma_gf_ext(r@, want);
    }
    r
}

/// The sum of two maps.
pub fn add(f: &Lin, g: &Lin) -> (r: Lin)
    requires
        f.wf(),
        g.wf(),
        f.dom == g.dom,
        f.cod == g.cod,
    ensures
        r@ == f@.plus(g@),
        r.wf(),
{
    let mut columns: Vec<u32> = Vec::new();
    let mut j: u32 = 0;
    while j < f.dom
        invariant
            f.wf(),
            g.wf(),
            f.dom == g.dom,
            j <= f.dom,
            columns@.len() == j,
            forall|l: int| 0 <= l < j ==> columns@[l] == f.columns@[l] ^ g.columns@[l],
        decreases f.dom - j,
    {
        columns.push(f.columns[j as usize] ^ g.columns[j as usize]);
        j = j + 1;
    }
    let r = Lin { dom: f.dom, cod: f.cod, columns };
    proof {
        assert forall|j: int, i: int| 0 <= j < f.dom && i >= 0 implies #[trigger] crate::theory::linear::bit(
            r.columns@[j] as int,
            i,
        ) == (crate::theory::linear::bit(f.columns@[j] as int, i) != crate::theory::linear::bit(g.columns@[j] as int, i)) by {
            lemma_xor_bits(f.columns@[j], g.columns@[j], i);
        }
        crate::theory::linear::lemma_gf_ext(r@, f@.plus(g@));
    }
    r
}

/// The word whose bit `j` is bit `i` of column `j`.
fn row(f: &Lin, i: u32) -> (r: u32)
    requires
        f.wf(),
        f.dom <= 32,
        i < f.cod,
        f.cod <= 32,
    ensures
        forall|j: int|
            j >= 0 ==> #[trigger] crate::theory::linear::bit(r as int, j) == (j < f.dom && crate::theory::linear::bit(
                f.columns@[j] as int,
                i as int,
            )),
{
    let mut acc: u32 = 0;
    let mut j: u32 = 0;
    proof {
        assert forall|k: int| k >= 0 implies !#[trigger] crate::theory::linear::bit(acc as int, k) by {
            crate::theory::linear::lemma_bit_zero(k);
        }
    }
    while j < f.dom
        invariant
            f.wf(),
            f.dom <= 32,
            i < f.cod,
            f.cod <= 32,
            j <= f.dom,
            forall|k: int|
                k >= 0 ==> #[trigger] crate::theory::linear::bit(acc as int, k) == (k < j && crate::theory::linear::bit(
                    f.columns@[k] as int,
                    i as int,
                )),
        decreases f.dom - j,
    {
        let col: u32 = f.columns[j as usize];
        let ghost before = acc;
        proof {
            crate::theory::linear::lemma_bit_shift(col, i);
        }
        if (col >> i) & 1 == 1 {
            acc = acc ^ (1u32 << j);
        }
        proof {
            assert forall|k: int| k >= 0 implies #[trigger] crate::theory::linear::bit(acc as int, k) == (k < j + 1
                && crate::theory::linear::bit(f.columns@[k] as int, i as int)) by {
                lemma_xor_bits(before, 1u32 << j, k);
                lemma_one_bits(j, k);
                assert(crate::theory::linear::bit(before as int, k) == (k < j && crate::theory::linear::bit(
                    f.columns@[k] as int,
                    i as int,
                )));
            }
        }
        j = j + 1;
    }
    acc
}

pub fn transpose(f: &Lin) -> (r: Lin)
    requires
        f.wf(),
        f.dom <= 32,
        f.cod <= 32,
    ensures
        r@ == f@.transposed(),
        r.wf(),
{
    let mut columns: Vec<u32> = Vec::new();
    let mut i: u32 = 0;
    while i < f.cod
        invariant
            f.wf(),
            f.dom <= 32,
            f.cod <= 32,
            i <= f.cod,
            columns@.len() == i,
            forall|l: int, j: int|
                0 <= l < i && j >= 0 ==> #[trigger] crate::theory::linear::bit(columns@[l] as int, j) == (j < f.dom
                    && crate::theory::linear::bit(f.columns@[j] as int, l)),
        decreases f.cod - i,
    {
        columns.push(row(f, i));
        i = i + 1;
    }
    let r = Lin { dom: f.cod, cod: f.dom, columns };
    proof {
        crate::theory::linear::lemma_gf_ext(r@, f@.transposed());
    }
    r
}

/// The word with bit `ia * n + ib` for each bit `ia` of `a` and `ib` of `b`.
fn spread(a: u32, b: u32, m: u32, n: u32) -> (r: u32)
    requires
        m * n <= 32,
    ensures
        forall|k: int|
            k >= 0 ==> #[trigger] crate::theory::linear::bit(r as int, k) == (k < m * n && crate::theory::linear::bit(
                a as int,
                k / n as int,
            ) && crate::theory::linear::bit(b as int, k % n as int)),
{
    proof {
        assert(0 <= m * n) by (nonlinear_arith) requires m >= 0, n >= 0;
    }
    let total: u32 = m * n;
    let mut acc: u32 = 0;
    let mut t: u32 = 0;
    proof {
        assert forall|k: int| k >= 0 implies !#[trigger] crate::theory::linear::bit(acc as int, k) by {
            crate::theory::linear::lemma_bit_zero(k);
        }
    }
    while t < total
        invariant
            total == m * n,
            total <= 32,
            t <= total,
            forall|k: int|
                k >= 0 ==> #[trigger] crate::theory::linear::bit(acc as int, k) == (k < t && crate::theory::linear::bit(
                    a as int,
                    k / n as int,
                ) && crate::theory::linear::bit(b as int, k % n as int)),
        decreases total - t,
    {
        let ghost before = acc;
        proof {
            crate::theory::limits::lemma_unpair(m as int, n as int, t as int);
            assert(m <= 32 && n <= 32) by (nonlinear_arith)
                requires 0 <= t < m * n, m * n <= 32, m >= 0, n >= 0;
        }
        let ia: u32 = t / n;
        let ib: u32 = t % n;
        proof {
            crate::theory::linear::lemma_bit_shift(a, ia);
            crate::theory::linear::lemma_bit_shift(b, ib);
        }
        if (a >> ia) & 1 == 1 && (b >> ib) & 1 == 1 {
            acc = acc ^ (1u32 << t);
        }
        proof {
            assert forall|k: int| k >= 0 implies #[trigger] crate::theory::linear::bit(acc as int, k) == (k < t + 1
                && crate::theory::linear::bit(a as int, k / n as int) && crate::theory::linear::bit(b as int, k % n as int)) by {
                lemma_xor_bits(before, 1u32 << t, k);
                lemma_one_bits(t, k);
                assert(crate::theory::linear::bit(before as int, k) == (k < t && crate::theory::linear::bit(
                    a as int,
                    k / n as int,
                ) && crate::theory::linear::bit(b as int, k % n as int)));
            }
        }
        t = t + 1;
    }
    acc
}

/// Kronecker product. Basis of `A ⊗ B` is ordered `a * dim_b + b`.
pub fn kronecker(f: &Lin, g: &Lin) -> (r: Lin)
    requires
        f.wf(),
        g.wf(),
        f.dom * g.dom <= u32::MAX,
        f.cod * g.cod <= 32,
    ensures
        r@ == Gf::kron(f@, g@),
        r.wf(),
{
    proof {
        assert(0 <= f.dom * g.dom) by (nonlinear_arith) requires f.dom >= 0, g.dom >= 0;
        assert(0 <= f.cod * g.cod) by (nonlinear_arith) requires f.cod >= 0, g.cod >= 0;
        crate::theory::linear::lemma_kron(f@, g@);
    }
    let dom: u32 = f.dom * g.dom;
    let cod: u32 = f.cod * g.cod;
    let mut columns: Vec<u32> = Vec::new();
    let mut t: u32 = 0;
    while t < dom
        invariant
            f.wf(),
            g.wf(),
            dom == f.dom * g.dom,
            f.cod * g.cod <= 32,
            t <= dom,
            columns@.len() == t,
            forall|l: int, k: int|
                0 <= l < t && k >= 0 ==> #[trigger] crate::theory::linear::bit(columns@[l] as int, k) == (k < f.cod * g.cod
                    && crate::theory::linear::bit(f.columns@[l / g.dom as int] as int, k / g.cod as int)
                    && crate::theory::linear::bit(g.columns@[l % g.dom as int] as int, k % g.cod as int)),
        decreases dom - t,
    {
        proof {
            crate::theory::limits::lemma_unpair(f.dom as int, g.dom as int, t as int);
        }
        let fa: u32 = f.columns[(t / g.dom) as usize];
        let gb: u32 = g.columns[(t % g.dom) as usize];
        columns.push(spread(fa, gb, f.cod, g.cod));
        t = t + 1;
    }
    let r = Lin { dom, cod, columns };
    proof {
        let want = Gf::kron(f@, g@);
        assert forall|i: int, j: int| 0 <= i < cod && 0 <= j < dom implies #[trigger] r@.e(i, j) == want.e(i, j) by {
            crate::theory::limits::lemma_unpair(f.dom as int, g.dom as int, j);
            crate::theory::limits::lemma_unpair(f.cod as int, g.cod as int, i);
            assert(crate::theory::linear::bit(r.columns@[j] as int, i) == (i < f.cod * g.cod && crate::theory::linear::bit(
                f.columns@[j / g.dom as int] as int,
                i / g.cod as int,
            ) && crate::theory::linear::bit(g.columns@[j % g.dom as int] as int, i % g.cod as int)));
        }
        crate::theory::linear::lemma_gf_ext(r@, want);
    }
    r
}

/// The `n` bits of `mask` that start at `start`.
fn field(mask: u32, start: u32, n: u32) -> (r: u32)
    requires
        start + n <= 32,
    ensures
        forall|i: int|
            i >= 0 ==> #[trigger] crate::theory::linear::bit(r as int, i) == (i < n && crate::theory::linear::bit(
                mask as int,
                start + i,
            )),
{
    let mut col: u32 = 0;
    let mut i: u32 = 0;
    proof {
        assert forall|k: int| k >= 0 implies !#[trigger] crate::theory::linear::bit(col as int, k) by {
            crate::theory::linear::lemma_bit_zero(k);
        }
    }
    while i < n
        invariant
            start + n <= 32,
            i <= n,
            forall|k: int|
                k >= 0 ==> #[trigger] crate::theory::linear::bit(col as int, k) == (k < i && crate::theory::linear::bit(
                    mask as int,
                    start + k,
                )),
        decreases n - i,
    {
        let bit: u32 = start + i;
        let ghost before = col;
        proof {
            crate::theory::linear::lemma_bit_shift(mask, bit);
        }
        if (mask >> bit) & 1 == 1 {
            col = col ^ (1u32 << i);
        }
        proof {
            assert forall|k: int| k >= 0 implies #[trigger] crate::theory::linear::bit(col as int, k) == (k < i + 1
                && crate::theory::linear::bit(mask as int, start + k)) by {
                lemma_xor_bits(before, 1u32 << i, k);
                lemma_one_bits(i, k);
                assert(crate::theory::linear::bit(before as int, k) == (k < i && crate::theory::linear::bit(
                    mask as int,
                    start + k,
                )));
            }
        }
        i = i + 1;
    }
    col
}

/// Every linear map `dom → cod`, in the order of the masks that hold their
/// coefficients.
pub fn all(dom: u32, cod: u32) -> (r: Vec<Lin>)
    requires
        dom * cod < 32,
    ensures
        crate::theory::listing::views(r@) == Gf::all(dom as int, cod as int),
        forall|k: int| 0 <= k < r@.len() ==> (#[trigger] r@[k]).wf(),
        forall|k: int| 0 <= k < r@.len() ==> (#[trigger] r@[k]).dom == dom && r@[k].cod == cod,
{
    proof {
        assert(0 <= dom * cod) by (nonlinear_arith) requires dom >= 0, cod >= 0;
    }
    let bits: u32 = dom * cod;
    proof {
        vstd::arithmetic::power2::lemma_pow2_strictly_increases(bits as nat, 32);
        vstd::arithmetic::power2::lemma2_to64();
        vstd::bits::lemma_u32_shl_is_mul(1, bits);
    }
    let total: u32 = 1u32 << bits;
    let mut out: Vec<Lin> = Vec::new();
    let mut mask: u32 = 0;
    while mask < total
        invariant
            bits == dom * cod,
            bits < 32,
            mask <= total,
            total == vstd::arithmetic::power2::pow2(bits as nat),
            out@.len() == mask,
            forall|k: int| 0 <= k < mask ==> (#[trigger] out@[k])@ == Gf::of_mask(dom as int, cod as int, k),
            forall|k: int| 0 <= k < mask ==> (#[trigger] out@[k]).wf(),
            forall|k: int| 0 <= k < mask ==> (#[trigger] out@[k]).dom == dom && out@[k].cod == cod,
        decreases total - mask,
    {
        let mut columns: Vec<u32> = Vec::new();
        let mut j: u32 = 0;
        while j < dom
            invariant
                bits == dom * cod,
                bits < 32,
                j <= dom,
                columns@.len() == j,
                forall|l: int, i: int|
                    0 <= l < j && i >= 0 ==> #[trigger] crate::theory::linear::bit(columns@[l] as int, i) == (i < cod
                        && crate::theory::linear::bit(mask as int, l * cod + i)),
            decreases dom - j,
        {
            proof {
                assert(0 <= j * cod && j * cod + cod <= dom * cod) by (nonlinear_arith)
                    requires 0 <= j, j + 1 <= dom, cod >= 0;
            }
            columns.push(field(mask, j * cod, cod));
            j = j + 1;
        }
        let f = Lin { dom, cod, columns };
        proof {
            let want = Gf::of_mask(dom as int, cod as int, mask as int);
            assert forall|i: int, j: int| 0 <= i < cod && 0 <= j < dom implies #[trigger] f@.e(i, j) == want.e(i, j) by {
                assert(crate::theory::linear::bit(f.columns@[j] as int, i) == (i < cod && crate::theory::linear::bit(
                    mask as int,
                    j * cod + i,
                )));
            }
            crate::theory::linear::lemma_gf_ext(f@, want);
        }
        out.push(f);
        mask = mask + 1;
    }
    assert(crate::theory::listing::views(out@) =~= Gf::all(dom as int, cod as int));
    out
}

} // verus!
