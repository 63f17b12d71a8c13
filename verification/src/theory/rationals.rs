//! Rational numbers in lowest terms.
use vstd::prelude::*;

verus! {

/// The greatest common divisor by Euclid's algorithm; 1 for two zeros.
pub open spec fn gcd(a: int, b: int) -> int
    decreases b,
{
    if b <= 0 {
        if a > 1 {
            a
        } else {
            1
        }
    } else {
        gcd(b, a % b)
    }
}

/// `a = g · p`, `b = g · q` and `p · u + q · v = 1`.
pub open spec fn splits(a: int, b: int, g: int, p: int, q: int, u: int, v: int) -> bool {
    &&& g > 0
    &&& a == g * p
    &&& b == g * q
    &&& p * u + q * v == 1
}

/// The greatest common divisor divides both numbers, and the quotients are
/// coprime.
pub proof fn lemma_gcd(a: int, b: int) -> (r: (int, int, int, int))
    requires
        a >= 0,
        b >= 0,
        a > 0 || b > 0,
    ensures
        splits(a, b, gcd(a, b), r.0, r.1, r.2, r.3),
    decreases b,
{
    if b == 0 {
        let g = gcd(a, b);
        assert(g == a);
        assert(a == g * 1 && b == g * 0 && 1 * 1 + 0 * 0 == 1);
        (1, 0, 1, 0)
    } else {
        let m = a % b;
        let k = a / b;
        vstd::arithmetic::div_mod::lemma_fundamental_div_mod(a, b);
        let (q, s, u, v) = lemma_gcd(b, m);
        let g = gcd(b, m);
        // b = g q and m = g s, so a = b k + m = g (q k + s).
        let p = q * k + s;
        assert(a == g * p) by (nonlinear_arith)
            requires a == b * k + m, b == g * q, m == g * s, p == q * k + s;
        // q u + s v = 1 with s = p - q k gives p v + q (u - k v) = 1.
        let w = u - k * v;
        assert(p * v + q * w == 1) by (nonlinear_arith)
            requires q * u + s * v == 1, p == q * k + s, w == u - k * v;
        (p, q, v, w)
    }
}

pub open spec fn abs(n: int) -> int {
    if n < 0 {
        -n
    } else {
        n
    }
}

/// A fraction `n / d`.
pub struct Rat {
    pub n: int,
    pub d: int,
}

/// `n` and `d` have no common divisor.
pub open spec fn coprime(n: int, d: int) -> bool {
    exists|u: int, v: int| #[trigger] combines(n, d, u, v)
}

pub open spec fn combines(n: int, d: int, u: int, v: int) -> bool {
    n * u + d * v == 1
}

impl Rat {
    /// Lowest terms, with a positive denominator.
    pub open spec fn wf(self) -> bool {
        self.d > 0 && coprime(self.n, self.d)
    }

    /// `n / d` in lowest terms.
    pub open spec fn norm(n: int, d: int) -> Rat {
        let m = if d < 0 { -n } else { n };
        let e = abs(d);
        let g = gcd(abs(m), e);
        Rat { n: if m < 0 { -(abs(m) / g) } else { m / g }, d: e / g }
    }

    /// The number.
    #[verifier::opaque]
    pub open spec fn val(self) -> real {
        self.n as real / self.d as real
    }

    pub open spec fn plus(self, o: Rat) -> Rat {
        Rat::norm(self.n * o.d + o.n * self.d, self.d * o.d)
    }

    pub open spec fn times(self, o: Rat) -> Rat {
        Rat::norm(self.n * o.n, self.d * o.d)
    }

    pub open spec fn negated(self) -> Rat {
        Rat::norm(-self.n, self.d)
    }

    pub open spec fn zero() -> Rat {
        Rat { n: 0, d: 1 }
    }

    pub open spec fn one() -> Rat {
        Rat { n: 1, d: 1 }
    }
}

/// The normal form is in lowest terms and is the same number.
pub proof fn lemma_norm(n: int, d: int)
    requires
        d != 0,
    ensures
        Rat::norm(n, d).wf(),
        Rat::norm(n, d).n * d == n * Rat::norm(n, d).d,
        Rat::norm(n, d).val() == n as real / d as real,
{
    reveal(Rat::val);
    let m = if d < 0 { -n } else { n };
    let e = abs(d);
    let a = abs(m);
    let g = gcd(a, e);
    let (p, q, u, v) = lemma_gcd(a, e);
    let r = Rat::norm(n, d);
    assert(a / g == p && e / g == q) by {
        vstd::arithmetic::div_mod::lemma_fundamental_div_mod_converse(a, g, p, 0);
        vstd::arithmetic::div_mod::lemma_fundamental_div_mod_converse(e, g, q, 0);
        assert(g * p == p * g && g * q == q * g) by (nonlinear_arith);
    }
    assert(q > 0) by (nonlinear_arith) requires e == g * q, e > 0, g > 0;
    if m < 0 {
        assert(r.n == -p && r.d == q);
        assert((-p) * (-u) + q * v == 1) by (nonlinear_arith) requires p * u + q * v == 1;
        assert(combines(r.n, r.d, -u, v));
    } else {
        assert(r.n == p && r.d == q);
        assert(combines(r.n, r.d, u, v));
    }
    assert(r.n * e == m * r.d) by (nonlinear_arith)
        requires
            a == g * p,
            e == g * q,
            m == a || m == -a,
            (m == a && r.n == p) || (m == -a && r.n == -p),
            r.d == q;
    assert(r.n * d == n * r.d) by (nonlinear_arith)
        requires r.n * e == m * r.d, (d == e && m == n) || (d == -e && m == -n);
    lemma_cross(r.n, r.d, n, d);
}

/// Fractions with equal cross products are one number.
pub proof fn lemma_cross(a: int, b: int, c: int, d: int)
    requires
        b != 0,
        d != 0,
        a * d == c * b,
    ensures
        a as real / b as real == c as real / d as real,
{
    let (x, y, z, w) = (a as real, b as real, c as real, d as real);
    assert(x * w == z * y) by {
        assert((a * d) as real == x * w) by (nonlinear_arith) requires x == a as real, w == d as real;
        assert((c * b) as real == z * y) by (nonlinear_arith) requires z == c as real, y == b as real;
    }
    assert(x / y == z / w) by (nonlinear_arith) requires x * w == z * y, y != 0real, w != 0real;
}

/// A number has one fraction in lowest terms.
pub proof fn lemma_unique(a: Rat, b: Rat)
    requires
        a.wf(),
        b.wf(),
        a.val() == b.val(),
    ensures
        a == b,
{
    reveal(Rat::val);
    let (an, ad, bn, bd) = (a.n, a.d, b.n, b.d);
    assert(an * bd == bn * ad) by {
        let (x, y, z, w) = (an as real, ad as real, bn as real, bd as real);
        assert(x * w == z * y) by (nonlinear_arith) requires x / y == z / w, y != 0real, w != 0real;
        assert((an * bd) as real == x * w) by (nonlinear_arith) requires x == an as real, w == bd as real;
        assert((bn * ad) as real == z * y) by (nonlinear_arith) requires z == bn as real, y == ad as real;
    }
    let (u, v) = choose|u: int, v: int| #[trigger] combines(an, ad, u, v);
    let (s, t) = choose|s: int, t: int| #[trigger] combines(bn, bd, s, t);
    // bd = bd (an u + ad v) = ad (bn u + bd v), and the same the other way.
    let k = bn * u + bd * v;
    let l = an * s + ad * t;
    assert(bd == ad * k) by (nonlinear_arith)
        requires an * u + ad * v == 1, an * bd == bn * ad, k == bn * u + bd * v;
    assert(ad == bd * l) by (nonlinear_arith)
        requires bn * s + bd * t == 1, an * bd == bn * ad, l == an * s + ad * t;
    assert(k >= 1) by (nonlinear_arith) requires bd == ad * k, ad > 0, bd > 0;
    assert(l >= 1) by (nonlinear_arith) requires ad == bd * l, ad > 0, bd > 0;
    assert(bd >= ad) by (nonlinear_arith) requires bd == ad * k, k >= 1, ad > 0;
    assert(ad >= bd) by (nonlinear_arith) requires ad == bd * l, l >= 1, bd > 0;
    assert(an == bn) by (nonlinear_arith) requires an * bd == bn * ad, ad == bd, ad > 0;
}

/// The operations compute with the numbers.
pub proof fn lemma_rat_ops(a: Rat, b: Rat)
    requires
        a.wf(),
        b.wf(),
    ensures
        a.plus(b).wf(),
        a.times(b).wf(),
        a.negated().wf(),
        a.plus(b).val() == a.val() + b.val(),
        a.times(b).val() == a.val() * b.val(),
        a.negated().val() == -a.val(),
{
    reveal(Rat::val);
    assert(a.d * b.d > 0) by (nonlinear_arith) requires a.d > 0, b.d > 0;
    lemma_norm(a.n * b.d + b.n * a.d, a.d * b.d);
    lemma_norm(a.n * b.n, a.d * b.d);
    lemma_norm(-a.n, a.d);
    let (x, y, z, w) = (a.n as real, a.d as real, b.n as real, b.d as real);
    assert((a.d * b.d) as real == y * w) by (nonlinear_arith) requires y == a.d as real, w == b.d as real;
    assert((a.n * b.n) as real == x * z) by (nonlinear_arith) requires x == a.n as real, z == b.n as real;
    assert((a.n * b.d) as real == x * w) by (nonlinear_arith) requires x == a.n as real, w == b.d as real;
    assert((b.n * a.d) as real == z * y) by (nonlinear_arith) requires z == b.n as real, y == a.d as real;
    assert((a.n * b.d + b.n * a.d) as real == x * w + z * y);
    assert((x * w + z * y) / (y * w) == x / y + z / w) by (nonlinear_arith) requires y != 0real, w != 0real;
    assert((x * z) / (y * w) == (x / y) * (z / w)) by (nonlinear_arith) requires y != 0real, w != 0real;
    assert((-a.n) as real == -x);
    assert((-x) / y == -(x / y)) by (nonlinear_arith) requires y != 0real;
}

pub proof fn lemma_rat_units()
    ensures
        Rat::zero().wf(),
        Rat::one().wf(),
        Rat::zero().val() == 0real,
        Rat::one().val() == 1real,
        Rat::norm(0, 1) == Rat::zero(),
{
    reveal(Rat::val);
    assert(combines(0, 1, 0, 1));
    assert(combines(1, 1, 1, 0));
    let (z, o) = (0int as real, 1int as real);
    assert(z / o == 0real && o / o == 1real) by (nonlinear_arith) requires z == 0real, o == 1real;
    lemma_norm(0, 1);
    lemma_unique(Rat::norm(0, 1), Rat::zero());
}

} // verus!
