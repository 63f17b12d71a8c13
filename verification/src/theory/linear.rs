//! Linear maps over the field with two elements.
use vstd::prelude::*;

verus! {

// ----- bits -----

/// Bit `i` of a number.
pub open spec fn bit(m: int, i: int) -> bool
    decreases i,
{
    if i <= 0 {
        m % 2 == 1
    } else {
        bit(m / 2, i - 1)
    }
}

/// The number with the given lowest `n` bits.
pub open spec fn number(n: nat, f: spec_fn(int) -> bool) -> int
    decreases n,
{
    if n == 0 {
        0
    } else {
        (if f(0) { 1int } else { 0 }) + 2 * number((n - 1) as nat, |i: int| f(i + 1))
    }
}

pub proof fn lemma_number(n: nat, f: spec_fn(int) -> bool)
    ensures
        0 <= number(n, f) < vstd::arithmetic::power2::pow2(n),
        forall|i: int| 0 <= i < n ==> #[trigger] bit(number(n, f), i) == f(i),
    decreases n,
{
    vstd::arithmetic::power2::lemma2_to64();
    if n > 0 {
        let g = |i: int| f(i + 1);
        let k = number((n - 1) as nat, g);
        lemma_number((n - 1) as nat, g);
        vstd::arithmetic::power2::lemma_pow2_unfold(n);
        let m = number(n, f);
        assert(m / 2 == k && (m % 2 == 1) == f(0));
        assert forall|i: int| 0 <= i < n implies #[trigger] bit(m, i) == f(i) by {
            if i > 0 {
                assert(bit(k, i - 1) == g(i - 1));
            }
        }
    }
}

/// A number below `2^n` is determined by its lowest `n` bits.
pub proof fn lemma_bits_determine(n: nat, a: int, b: int)
    requires
        0 <= a < vstd::arithmetic::power2::pow2(n),
        0 <= b < vstd::arithmetic::power2::pow2(n),
        forall|i: int| 0 <= i < n ==> #[trigger] bit(a, i) == bit(b, i),
    ensures
        a == b,
    decreases n,
{
    vstd::arithmetic::power2::lemma2_to64();
    if n > 0 {
        vstd::arithmetic::power2::lemma_pow2_unfold(n);
        assert(bit(a, 0) == bit(b, 0));
        assert forall|i: int| 0 <= i < n - 1 implies #[trigger] bit(a / 2, i) == bit(b / 2, i) by {
            assert(bit(a, i + 1) == bit(b, i + 1));
        }
        lemma_bits_determine((n - 1) as nat, a / 2, b / 2);
    }
}

/// A number below `2^n` has no bit from `n` on.
pub proof fn lemma_high_bits(n: nat, a: int, i: int)
    requires
        0 <= a < vstd::arithmetic::power2::pow2(n),
        i >= n,
    ensures
        !bit(a, i),
    decreases i,
{
    vstd::arithmetic::power2::lemma2_to64();
    if n > 0 {
        vstd::arithmetic::power2::lemma_pow2_unfold(n);
        lemma_high_bits((n - 1) as nat, a / 2, i - 1);
    } else if i > 0 {
        lemma_high_bits(0, 0, i - 1);
    }
}

/// Bits of a machine word, by shifting.
pub proof fn lemma_bit_shift(v: u32, i: u32)
    requires
        i < 32,
    ensures
        bit(v as int, i as int) == ((v >> i) & 1 == 1),
    decreases i,
{
    if i == 0 {
        assert((v >> 0u32) & 1 == v % 2) by (bit_vector);
    } else {
        let j = (i - 1) as u32;
        let w = v / 2;
        assert((v >> i) & 1 == ((v / 2) >> j) & 1) by (bit_vector)
            requires 0 < i < 32, j == i - 1;
        lemma_bit_shift(w, j);
    }
}

pub proof fn lemma_bit_xor(a: u32, b: u32, i: u32)
    requires
        i < 32,
    ensures
        bit((a ^ b) as int, i as int) == (bit(a as int, i as int) != bit(b as int, i as int)),
{
    lemma_bit_shift(a, i);
    lemma_bit_shift(b, i);
    lemma_bit_shift(a ^ b, i);
    assert(((a ^ b) >> i) & 1 == ((a >> i) & 1) ^ ((b >> i) & 1)) by (bit_vector);
    let x = (a >> i) & 1;
    let y = (b >> i) & 1;
    assert(x <= 1 && y <= 1) by (bit_vector) requires x == (a >> i) & 1, y == (b >> i) & 1;
    assert((x ^ y == 1) == (x != y)) by (bit_vector) requires x <= 1, y <= 1;
    assert((x == 1) == (x != 0));
}

pub proof fn lemma_bit_one(k: u32, i: u32)
    requires
        k < 32,
        i < 32,
    ensures
        bit((1u32 << k) as int, i as int) == (i == k),
{
    lemma_bit_shift(1u32 << k, i);
    assert((((1u32 << k) >> i) & 1 == 1) == (i == k)) by (bit_vector) requires k < 32, i < 32;
}

pub proof fn lemma_bit_zero(i: int)
    requires
        i >= 0,
    ensures
        !bit(0, i),
    decreases i,
{
    if i > 0 {
        lemma_bit_zero(i - 1);
    }
}

// ----- linear maps -----

/// A linear map, as the images of the basis vectors.
#[verifier::ext_equal]
pub struct Gf {
    pub dom: int,
    pub cod: int,
    pub cols: Seq<Seq<bool>>,
}

impl Gf {
    /// The coefficient of basis vector `i` in the image of basis vector `j`.
    pub open spec fn e(self, i: int, j: int) -> bool {
        self.cols[j][i]
    }

    pub open spec fn wf(self) -> bool {
        &&& self.dom >= 0
        &&& self.cod >= 0
        &&& self.cols.len() == self.dom
        &&& forall|j: int| 0 <= j < self.dom ==> (#[trigger] self.cols[j]).len() == self.cod
    }

    pub open spec fn from(dom: int, cod: int, f: spec_fn(int, int) -> bool) -> Gf {
        Gf { dom, cod, cols: Seq::new(dom as nat, |j: int| Seq::new(cod as nat, |i: int| f(i, j))) }
    }

    pub open spec fn zero(dom: int, cod: int) -> Gf {
        Gf::from(dom, cod, |i: int, j: int| false)
    }

    pub open spec fn id(n: int) -> Gf {
        Gf::from(n, n, |i: int, j: int| i == j)
    }

    /// `(g ∘ f)_ij = Σ_k g_ik f_kj`.
    pub open spec fn o(self, f: Gf) -> Gf {
        Gf::from(f.dom, self.cod, |i: int, j: int| crate::theory::sums::parity(self.dom, |k: int| self.e(i, k) && f.e(k, j)))
    }

    pub open spec fn plus(self, g: Gf) -> Gf {
        Gf::from(self.dom, self.cod, |i: int, j: int| self.e(i, j) != g.e(i, j))
    }

    pub open spec fn transposed(self) -> Gf {
        Gf::from(self.cod, self.dom, |i: int, j: int| self.e(j, i))
    }

    /// The Kronecker product, with basis `a * dim_b + b`.
    pub open spec fn kron(f: Gf, g: Gf) -> Gf {
        Gf::from(
            f.dom * g.dom,
            f.cod * g.cod,
            |i: int, j: int| f.e(i / g.cod, j / g.dom) && g.e(i % g.cod, j % g.dom),
        )
    }

    /// The map whose coefficients are the bits of `mask`, column after column.
    pub open spec fn of_mask(dom: int, cod: int, mask: int) -> Gf {
        Gf::from(dom, cod, |i: int, j: int| bit(mask, j * cod + i))
    }

    /// Every map, in the order of the masks.
    pub open spec fn all(dom: int, cod: int) -> Seq<Gf> {
        Seq::new(vstd::arithmetic::power2::pow2((dom * cod) as nat), |mask: int| Gf::of_mask(dom, cod, mask))
    }
}

/// Maps with the same coefficients are equal.
pub proof fn lemma_gf_ext(f: Gf, g: Gf)
    requires
        f.wf(),
        g.wf(),
        f.dom == g.dom,
        f.cod == g.cod,
        forall|i: int, j: int| 0 <= i < f.cod && 0 <= j < f.dom ==> #[trigger] f.e(i, j) == g.e(i, j),
    ensures
        f == g,
{
    assert forall|j: int| 0 <= j < f.dom implies f.cols[j] == g.cols[j] by {
        assert forall|i: int| 0 <= i < f.cod implies f.cols[j][i] == g.cols[j][i] by {
            assert(f.e(i, j) == g.e(i, j));
        }
        assert(f.cols[j] =~= g.cols[j]);
    }
    assert(f.cols =~= g.cols);
}

/// Composition is associative, identities are neutral, and composition is
/// linear in each argument.
pub proof fn law_linear_category(h: Gf, g: Gf, f: Gf)
    requires
        f.wf(),
        g.wf(),
        h.wf(),
        f.cod == g.dom,
        g.cod == h.dom,
    ensures
        f.o(Gf::id(f.dom)) == f,
        Gf::id(f.cod).o(f) == f,
        h.o(g.o(f)) == h.o(g).o(f),
{
    let e = Gf::id(f.dom);
    let d = Gf::id(f.cod);
    let fe = f.o(e);
    let df = d.o(f);
    assert forall|i: int, j: int| 0 <= i < f.cod && 0 <= j < f.dom implies #[trigger] fe.e(i, j) == f.e(i, j) by {
        crate::theory::sums::lemma_parity_one(f.dom, j, |k: int| f.e(i, k) && e.e(k, j));
    }
    lemma_gf_ext(fe, f);
    assert forall|i: int, j: int| 0 <= i < f.cod && 0 <= j < f.dom implies #[trigger] df.e(i, j) == f.e(i, j) by {
        crate::theory::sums::lemma_parity_one(f.cod, i, |k: int| d.e(i, k) && f.e(k, j));
    }
    lemma_gf_ext(df, f);
    let gf = g.o(f);
    let hg = h.o(g);
    let l = h.o(gf);
    let r = hg.o(f);
    assert forall|i: int, j: int| 0 <= i < h.cod && 0 <= j < f.dom implies #[trigger] l.e(i, j) == r.e(i, j) by {
        let t = |k: int, m: int| h.e(i, k) && g.e(k, m) && f.e(m, j);
        let a = |k: int| h.e(i, k) && gf.e(k, j);
        let a2 = |k: int| crate::theory::sums::parity(g.dom, |m: int| t(k, m));
        assert forall|k: int| 0 <= k < h.dom implies #[trigger] a(k) == a2(k) by {
            let row = |m: int| g.e(k, m) && f.e(m, j);
            crate::theory::sums::lemma_parity_scale(g.dom, h.e(i, k), row);
            crate::theory::sums::lemma_parity_ext(g.dom, |m: int| h.e(i, k) && row(m), |m: int| t(k, m));
            crate::theory::sums::lemma_parity_ext(g.dom, row, |m: int| g.e(k, m) && f.e(m, j));
            assert(gf.e(k, j) == crate::theory::sums::parity(g.dom, |m: int| g.e(k, m) && f.e(m, j)));
        }
        crate::theory::sums::lemma_parity_ext(h.dom, a, a2);
        let b = |m: int| hg.e(i, m) && f.e(m, j);
        let b2 = |m: int| crate::theory::sums::parity(h.dom, |k: int| t(k, m));
        assert forall|m: int| 0 <= m < g.dom implies #[trigger] b(m) == b2(m) by {
            let col = |k: int| h.e(i, k) && g.e(k, m);
            crate::theory::sums::lemma_parity_scale(h.dom, f.e(m, j), col);
            crate::theory::sums::lemma_parity_ext(h.dom, |k: int| f.e(m, j) && col(k), |k: int| t(k, m));
            crate::theory::sums::lemma_parity_ext(h.dom, col, |k: int| h.e(i, k) && g.e(k, m));
            assert(hg.e(i, m) == crate::theory::sums::parity(h.dom, |k: int| h.e(i, k) && g.e(k, m)));
        }
        crate::theory::sums::lemma_parity_ext(g.dom, b, b2);
        crate::theory::sums::lemma_parity_swap(h.dom, g.dom, t);
        crate::theory::sums::lemma_parity_ext(h.dom, a2, |k: int| crate::theory::sums::parity(g.dom, |m: int| t(k, m)));
        crate::theory::sums::lemma_parity_ext(g.dom, b2, |m: int| crate::theory::sums::parity(h.dom, |k: int| t(k, m)));
        crate::theory::sums::lemma_parity_ext(h.dom, a, |k: int| h.e(i, k) && gf.e(k, j));
        crate::theory::sums::lemma_parity_ext(g.dom, b, |m: int| hg.e(i, m) && f.e(m, j));
    }
    lemma_gf_ext(l, r);
}

/// Composition distributes over sums on both sides, and the sum of a map with
/// itself is zero.
pub proof fn law_bilinear(h: Gf, f: Gf, g: Gf, k: Gf)
    requires
        f.wf(),
        g.wf(),
        h.wf(),
        k.wf(),
        f.dom == g.dom,
        f.cod == g.cod,
        h.dom == f.cod,
        k.cod == f.dom,
    ensures
        h.o(f.plus(g)) == h.o(f).plus(h.o(g)),
        f.plus(g).o(k) == f.o(k).plus(g.o(k)),
        f.plus(f) == Gf::zero(f.dom, f.cod),
{
    let s = f.plus(g);
    let hf = h.o(f);
    let hg = h.o(g);
    let l = h.o(s);
    let r = hf.plus(hg);
    assert forall|i: int, j: int| 0 <= i < h.cod && 0 <= j < f.dom implies #[trigger] l.e(i, j) == r.e(i, j) by {
        let a = |t: int| h.e(i, t) && f.e(t, j);
        let b = |t: int| h.e(i, t) && g.e(t, j);
        crate::theory::sums::lemma_parity_add(h.dom, a, b);
        crate::theory::sums::lemma_parity_ext(h.dom, |t: int| h.e(i, t) && s.e(t, j), |t: int| a(t) != b(t));
    }
    lemma_gf_ext(l, r);
    let fk = f.o(k);
    let gk = g.o(k);
    let l2 = s.o(k);
    let r2 = fk.plus(gk);
    assert forall|i: int, j: int| 0 <= i < f.cod && 0 <= j < k.dom implies #[trigger] l2.e(i, j) == r2.e(i, j) by {
        let a = |t: int| f.e(i, t) && k.e(t, j);
        let b = |t: int| g.e(i, t) && k.e(t, j);
        crate::theory::sums::lemma_parity_add(f.dom, a, b);
        crate::theory::sums::lemma_parity_ext(f.dom, |t: int| s.e(i, t) && k.e(t, j), |t: int| a(t) != b(t));
    }
    lemma_gf_ext(l2, r2);
    lemma_gf_ext(f.plus(f), Gf::zero(f.dom, f.cod));
}

/// Transposing twice gives the map back.
pub proof fn law_transpose_involution(f: Gf)
    requires
        f.wf(),
    ensures
        f.transposed().transposed() == f,
{
    lemma_gf_ext(f.transposed().transposed(), f);
}

/// Transposition reverses composites.
pub proof fn law_transpose_compose(g: Gf, f: Gf)
    requires
        f.wf(),
        g.wf(),
        f.cod == g.dom,
    ensures
        g.o(f).transposed() == f.transposed().o(g.transposed()),
{
    let l = g.o(f).transposed();
    let r = f.transposed().o(g.transposed());
    assert forall|i: int, j: int| 0 <= i < l.cod && 0 <= j < l.dom implies #[trigger] l.e(i, j) == r.e(i, j) by {
        crate::theory::sums::lemma_parity_ext(
            g.dom,
            |k: int| g.e(j, k) && f.e(k, i),
            |k: int| f.transposed().e(i, k) && g.transposed().e(k, j),
        );
    }
    lemma_gf_ext(l, r);
}

pub proof fn lemma_kron(f: Gf, g: Gf)
    requires
        f.wf(),
        g.wf(),
    ensures
        Gf::kron(f, g).wf(),
        forall|i: int, j: int|
            0 <= i < f.cod * g.cod && 0 <= j < f.dom * g.dom ==> #[trigger] Gf::kron(f, g).e(i, j) == (f.e(
                i / g.cod,
                j / g.dom,
            ) && g.e(i % g.cod, j % g.dom)),
{
    assert(f.cod * g.cod >= 0 && f.dom * g.dom >= 0) by (nonlinear_arith)
        requires f.cod >= 0, g.cod >= 0, f.dom >= 0, g.dom >= 0;
}

/// The tensor of identities is the identity.
pub proof fn law_kron_identity(a: int, b: int)
    requires
        a >= 0,
        b >= 0,
    ensures
        Gf::kron(Gf::id(a), Gf::id(b)) == Gf::id(a * b),
{
    lemma_kron(Gf::id(a), Gf::id(b));
    let l = Gf::kron(Gf::id(a), Gf::id(b));
    let r = Gf::id(a * b);
    assert(a * b >= 0) by (nonlinear_arith) requires a >= 0, b >= 0;
    assert forall|i: int, j: int| 0 <= i < a * b && 0 <= j < a * b implies #[trigger] l.e(i, j) == r.e(i, j) by {
        crate::theory::limits::lemma_unpair(a, b, i);
        crate::theory::limits::lemma_unpair(a, b, j);
    }
    lemma_gf_ext(l, r);
}

/// A parity over pairs is a parity of parities.
pub proof fn lemma_parity_pairs(a: int, b: int, f: spec_fn(int, int) -> bool)
    requires
        a >= 0,
        b >= 0,
    ensures
        crate::theory::sums::parity(a * b, |k: int| f(k / b, k % b)) == crate::theory::sums::parity(
            a,
            |x: int| crate::theory::sums::parity(b, |y: int| f(x, y)),
        ),
    decreases a,
{
    let flat = |k: int| f(k / b, k % b);
    let outer = |x: int| crate::theory::sums::parity(b, |y: int| f(x, y));
    if a == 0 {
        assert(a * b == 0) by (nonlinear_arith) requires a == 0;
    } else {
        lemma_parity_pairs(a - 1, b, f);
        let base = (a - 1) * b;
        assert(base + b == a * b) by (nonlinear_arith) requires base == (a - 1) * b;
        assert(base >= 0) by (nonlinear_arith) requires base == (a - 1) * b, a >= 1, b >= 0;
        lemma_parity_tail(base, b, flat);
        let tail = |y: int| flat(base + y);
        let last = |y: int| f(a - 1, y);
        assert forall|y: int| 0 <= y < b implies #[trigger] tail(y) == last(y) by {
            crate::theory::limits::lemma_pair_index(a, b, a - 1, y);
        }
        crate::theory::sums::lemma_parity_ext(b, tail, last);
        assert(outer(a - 1) == crate::theory::sums::parity(b, |y: int| f(a - 1, y)));
        crate::theory::sums::lemma_parity_ext(b, last, |y: int| f(a - 1, y));
    }
}

proof fn lemma_parity_tail(n: int, m: int, f: spec_fn(int) -> bool)
    requires
        n >= 0,
        m >= 0,
    ensures
        crate::theory::sums::parity(n + m, f) == (crate::theory::sums::parity(n, f) != crate::theory::sums::parity(
            m,
            |y: int| f(n + y),
        )),
    decreases m,
{
    if m > 0 {
        lemma_parity_tail(n, m - 1, f);
    }
}

/// The tensor product is a functor of two arguments.
pub proof fn law_kron_compose(f2: Gf, f: Gf, g2: Gf, g: Gf)
    requires
        f.wf(),
        f2.wf(),
        g.wf(),
        g2.wf(),
        f.cod == f2.dom,
        g.cod == g2.dom,
    ensures
        Gf::kron(f2, g2).o(Gf::kron(f, g)) == Gf::kron(f2.o(f), g2.o(g)),
{
    let ff = f2.o(f);
    let gg = g2.o(g);
    lemma_kron(f2, g2);
    lemma_kron(f, g);
    lemma_kron(ff, gg);
    let p = Gf::kron(f2, g2);
    let q = Gf::kron(f, g);
    let l = p.o(q);
    let r = Gf::kron(ff, gg);
    assert(f2.cod * g2.cod >= 0 && f.dom * g.dom >= 0 && f2.dom * g2.dom >= 0) by (nonlinear_arith)
        requires f2.cod >= 0, g2.cod >= 0, f.dom >= 0, g.dom >= 0, f2.dom >= 0, g2.dom >= 0;
    assert forall|i: int, j: int| 0 <= i < r.cod && 0 <= j < r.dom implies #[trigger] l.e(i, j) == r.e(i, j) by {
        crate::theory::limits::lemma_unpair(f2.cod, g2.cod, i);
        crate::theory::limits::lemma_unpair(f.dom, g.dom, j);
        let (ia, ib) = (i / g2.cod, i % g2.cod);
        let (ja, jb) = (j / g.dom, j % g.dom);
        let t = |x: int, y: int| (f2.e(ia, x) && f.e(x, ja)) && (g2.e(ib, y) && g.e(y, jb));
        let flat = |k: int| t(k / g2.dom, k % g2.dom);
        assert forall|k: int| 0 <= k < f2.dom * g2.dom implies #[trigger] flat(k) == (p.e(i, k) && q.e(k, j)) by {
            crate::theory::limits::lemma_unpair(f2.dom, g2.dom, k);
        }
        crate::theory::sums::lemma_parity_ext(p.dom, flat, |k: int| p.e(i, k) && q.e(k, j));
        lemma_parity_pairs(f2.dom, g2.dom, t);
        let fa = |x: int| f2.e(ia, x) && f.e(x, ja);
        let gb = |y: int| g2.e(ib, y) && g.e(y, jb);
        let total = crate::theory::sums::parity(g2.dom, gb);
        let outer = |x: int| crate::theory::sums::parity(g2.dom, |y: int| t(x, y));
        let scaled = |x: int| total && fa(x);
        assert forall|x: int| 0 <= x < f2.dom implies #[trigger] outer(x) == scaled(x) by {
            crate::theory::sums::lemma_parity_scale(g2.dom, fa(x), gb);
            crate::theory::sums::lemma_parity_ext(g2.dom, |y: int| fa(x) && gb(y), |y: int| t(x, y));
        }
        crate::theory::sums::lemma_parity_ext(f2.dom, outer, scaled);
        crate::theory::sums::lemma_parity_ext(
            f2.dom,
            outer,
            |x: int| crate::theory::sums::parity(g2.dom, |y: int| t(x, y)),
        );
        crate::theory::sums::lemma_parity_scale(f2.dom, total, fa);
        crate::theory::sums::lemma_parity_ext(f2.dom, fa, |k: int| f2.e(ia, k) && f.e(k, ja));
        crate::theory::sums::lemma_parity_ext(g2.dom, gb, |k: int| g2.e(ib, k) && g.e(k, jb));
        assert(ff.e(ia, ja) == crate::theory::sums::parity(f2.dom, |k: int| f2.e(ia, k) && f.e(k, ja)));
        assert(gg.e(ib, jb) == crate::theory::sums::parity(g2.dom, |k: int| g2.e(ib, k) && g.e(k, jb)));
    }
    lemma_gf_ext(l, r);
}

/// The listing holds each linear map once; there are two to the power
/// `dom * cod` of them.
pub proof fn law_all_maps(dom: int, cod: int)
    requires
        dom >= 0,
        cod >= 0,
    ensures
        Gf::all(dom, cod).len() == vstd::arithmetic::power2::pow2((dom * cod) as nat),
        Gf::all(dom, cod).no_duplicates(),
        forall|f: Gf| #[trigger] Gf::all(dom, cod).contains(f) <==> f.wf() && f.dom == dom && f.cod == cod,
{
    let n = (dom * cod) as nat;
    assert(dom * cod >= 0) by (nonlinear_arith) requires dom >= 0, cod >= 0;
    assert(dom * cod == n);
    let all = Gf::all(dom, cod);
    assert forall|a: int, b: int| 0 <= a < all.len() && 0 <= b < all.len() && a != b implies all[a] != all[b] by {
        if all[a] == all[b] {
            assert forall|k: int| 0 <= k < n implies #[trigger] bit(a, k) == bit(b, k) by {
                crate::theory::limits::lemma_unpair(dom, cod, k);
                let j = k / cod;
                let i = k % cod;
                assert(all[a].e(i, j) == bit(a, j * cod + i));
                assert(all[b].e(i, j) == bit(b, j * cod + i));
            }
            lemma_bits_determine(n, a, b);
        }
    }
    assert forall|f: Gf| f.wf() && f.dom == dom && f.cod == cod implies #[trigger] all.contains(f) by {
        let bits = |k: int| f.e(k % cod, k / cod);
        let m = number(n, bits);
        lemma_number(n, bits);
        assert forall|i: int, j: int| 0 <= i < cod && 0 <= j < dom implies #[trigger] f.e(i, j) == all[m].e(i, j) by {
            crate::theory::limits::lemma_pair_index(dom, cod, j, i);
            assert(bit(m, j * cod + i) == bits(j * cod + i));
        }
        lemma_gf_ext(f, all[m]);
        assert(all[m] == f);
    }
}

} // verus!
