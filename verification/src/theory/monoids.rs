//! Commutative monoids, their modules, and tensor products over a monoid.
use vstd::prelude::*;
use crate::theory::fun::Fun;

verus! {

/// A multiplication table with a chosen unit.
#[verifier::ext_equal]
pub struct Mon {
    pub carrier: int,
    pub unit: int,
    pub mul: Seq<int>,
}

impl Mon {
    /// `i · j`.
    pub open spec fn m(self, i: int, j: int) -> int {
        self.mul[i * self.carrier + j]
    }

    /// A total table of elements.
    pub open spec fn shaped(self) -> bool {
        &&& 0 <= self.unit < self.carrier
        &&& self.mul.len() == self.carrier * self.carrier
        &&& forall|k: int| 0 <= k < self.mul.len() ==> 0 <= #[trigger] self.mul[k] < self.carrier
    }

    pub open spec fn has(self, i: int) -> bool {
        0 <= i < self.carrier
    }

    /// A commutative monoid.
    pub open spec fn wf(self) -> bool {
        &&& self.shaped()
        &&& forall|i: int| #[trigger] self.has(i) ==> self.m(self.unit, i) == i && self.m(i, self.unit) == i
        &&& forall|i: int, j: int| #[trigger] self.has(i) && #[trigger] self.has(j) ==> self.m(i, j) == self.m(j, i)
        &&& forall|i: int, j: int, k: int| #[trigger]
            self.has(i) && #[trigger] self.has(j) && #[trigger] self.has(k) ==> self.m(self.m(i, j), k) == self.m(
                i,
                self.m(j, k),
            )
    }

    /// `f` preserves the unit and the multiplication.
    pub open spec fn is_hom(f: Fun, a: Mon, b: Mon) -> bool {
        &&& f.dom == a.carrier
        &&& f.cod == b.carrier
        &&& f.map[a.unit] == b.unit
        &&& forall|i: int, j: int| #[trigger]
            a.has(i) && #[trigger] a.has(j) ==> f.map[a.m(i, j)] == b.m(f.map[i], f.map[j])
    }

    /// The monoid as a module over itself.
    pub open spec fn regular(self) -> Mod {
        Mod {
            scalar: self,
            carrier: self.carrier,
            act: Seq::new(
                (self.carrier * self.carrier) as nat,
                |k: int| self.m(k / self.carrier, k % self.carrier),
            ),
        }
    }
}

/// An action table of a monoid on a set.
#[verifier::ext_equal]
pub struct Mod {
    pub scalar: Mon,
    pub carrier: int,
    pub act: Seq<int>,
}

impl Mod {
    /// `s · x`.
    pub open spec fn a(self, s: int, x: int) -> int {
        self.act[s * self.carrier + x]
    }

    pub open spec fn has(self, x: int) -> bool {
        0 <= x < self.carrier
    }

    /// A total table of elements.
    pub open spec fn shaped(self) -> bool {
        &&& self.scalar.shaped()
        &&& self.carrier >= 0
        &&& self.act.len() == self.scalar.carrier * self.carrier
        &&& forall|k: int| 0 <= k < self.act.len() ==> 0 <= #[trigger] self.act[k] < self.carrier
    }

    /// A module: the unit acts as the identity, and products act in turn.
    pub open spec fn wf(self) -> bool {
        &&& self.scalar.wf()
        &&& self.shaped()
        &&& forall|x: int| #[trigger] self.has(x) ==> self.a(self.scalar.unit, x) == x
        &&& forall|s: int, t: int, x: int| #[trigger]
            self.scalar.has(s) && #[trigger] self.scalar.has(t) && #[trigger] self.has(x) ==> self.a(
                self.scalar.m(s, t),
                x,
            ) == self.a(s, self.a(t, x))
    }

    /// `f` preserves the action.
    pub open spec fn is_hom(f: Fun, x: Mod, y: Mod) -> bool {
        &&& x.scalar == y.scalar
        &&& f.dom == x.carrier
        &&& f.cod == y.carrier
        &&& forall|s: int, e: int| #[trigger]
            x.scalar.has(s) && #[trigger] x.has(e) ==> f.map[x.a(s, e)] == y.a(s, f.map[e])
    }

    /// The regular module of `a`, with `b` acting through `back`.
    pub open spec fn restricted(a: Mon, b: Mon, back: Fun) -> Mod {
        Mod {
            scalar: b,
            carrier: a.carrier,
            act: Seq::new((b.carrier * a.carrier) as nat, |k: int| a.m(back.map[k / a.carrier], k % a.carrier)),
        }
    }
}

pub proof fn lemma_mul(m: Mon, i: int, j: int)
    requires
        m.shaped(),
        m.has(i),
        m.has(j),
    ensures
        0 <= i * m.carrier + j < m.mul.len(),
        m.has(m.m(i, j)),
{
    crate::theory::limits::lemma_pair_index(m.carrier, m.carrier, i, j);
}

pub proof fn lemma_act(m: Mod, s: int, x: int)
    requires
        m.shaped(),
        m.scalar.has(s),
        m.has(x),
    ensures
        0 <= s * m.carrier + x < m.act.len(),
        m.has(m.a(s, x)),
{
    crate::theory::limits::lemma_pair_index(m.scalar.carrier, m.carrier, s, x);
}

/// Monoid homomorphisms compose.
pub proof fn law_monoid_homs_compose(g: Fun, f: Fun, a: Mon, b: Mon, c: Mon)
    requires
        a.shaped(),
        b.shaped(),
        f.wf(),
        g.wf(),
        Mon::is_hom(f, a, b),
        Mon::is_hom(g, b, c),
    ensures
        Mon::is_hom(g.o(f), a, c),
{
    let h = g.o(f);
    assert(h.map[a.unit] == g.map[f.map[a.unit]]);
    assert forall|i: int, j: int| #[trigger] a.has(i) && #[trigger] a.has(j) implies h.map[a.m(i, j)] == c.m(
        h.map[i],
        h.map[j],
    ) by {
        lemma_mul(a, i, j);
        assert(b.has(f.map[i]) && b.has(f.map[j]));
        assert(h.map[a.m(i, j)] == g.map[f.map[a.m(i, j)]]);
    }
}

/// The identity is a monoid homomorphism.
pub proof fn law_identity_hom(a: Mon)
    requires
        a.shaped(),
    ensures
        Mon::is_hom(Fun::id(a.carrier), a, a),
{
    assert forall|i: int, j: int| #[trigger] a.has(i) && #[trigger] a.has(j) implies Fun::id(a.carrier).map[a.m(i, j)] == a.m(
        Fun::id(a.carrier).map[i],
        Fun::id(a.carrier).map[j],
    ) by {
        lemma_mul(a, i, j);
    }
}

/// Module homomorphisms compose, and identities are module homomorphisms.
pub proof fn law_module_homs(g: Fun, f: Fun, x: Mod, y: Mod, z: Mod)
    requires
        x.shaped(),
        y.shaped(),
        f.wf(),
        g.wf(),
        Mod::is_hom(f, x, y),
        Mod::is_hom(g, y, z),
    ensures
        Mod::is_hom(Fun::id(x.carrier), x, x),
        Mod::is_hom(g.o(f), x, z),
{
    let h = g.o(f);
    assert forall|s: int, e: int| #[trigger] x.scalar.has(s) && #[trigger] x.has(e) implies {
        &&& h.map[x.a(s, e)] == z.a(s, h.map[e])
        &&& Fun::id(x.carrier).map[x.a(s, e)] == x.a(s, Fun::id(x.carrier).map[e])
    } by {
        lemma_act(x, s, e);
        assert(y.has(f.map[e]));
        assert(y.scalar.has(s));
        assert(h.map[x.a(s, e)] == g.map[f.map[x.a(s, e)]]);
    }
}

/// Restriction of the regular module along `back`, entry by entry.
pub proof fn lemma_restricted(a: Mon, b: Mon, back: Fun)
    requires
        a.shaped(),
        b.shaped(),
        back.hom(b.carrier, a.carrier),
    ensures
        Mod::restricted(a, b, back).shaped(),
        forall|s: int, e: int| #[trigger]
            b.has(s) && #[trigger] a.has(e) ==> Mod::restricted(a, b, back).a(s, e) == a.m(back.map[s], e),
{
    let r = Mod::restricted(a, b, back);
    assert(b.carrier * a.carrier >= 0) by (nonlinear_arith) requires b.carrier >= 0, a.carrier >= 0;
    assert forall|k: int| 0 <= k < r.act.len() implies 0 <= #[trigger] r.act[k] < r.carrier by {
        crate::theory::limits::lemma_unpair(b.carrier, a.carrier, k);
        lemma_mul(a, back.map[k / a.carrier], k % a.carrier);
    }
    assert forall|s: int, e: int| #[trigger] b.has(s) && #[trigger] a.has(e) implies r.a(s, e) == a.m(back.map[s], e) by {
        crate::theory::limits::lemma_pair_index(b.carrier, a.carrier, s, e);
    }
}

/// The regular module, entry by entry.
pub proof fn lemma_regular(a: Mon)
    requires
        a.shaped(),
    ensures
        a.regular().shaped(),
        forall|s: int, e: int| #[trigger] a.has(s) && #[trigger] a.has(e) ==> a.regular().a(s, e) == a.m(s, e),
{
    let r = a.regular();
    assert(a.carrier * a.carrier >= 0) by (nonlinear_arith);
    assert forall|k: int| 0 <= k < r.act.len() implies 0 <= #[trigger] r.act[k] < r.carrier by {
        crate::theory::limits::lemma_unpair(a.carrier, a.carrier, k);
        lemma_mul(a, k / a.carrier, k % a.carrier);
    }
    assert forall|s: int, e: int| #[trigger] a.has(s) && #[trigger] a.has(e) implies r.a(s, e) == a.m(s, e) by {
        crate::theory::limits::lemma_pair_index(a.carrier, a.carrier, s, e);
    }
}

/// The regular module is a module.
pub proof fn law_regular_module(a: Mon)
    requires
        a.wf(),
    ensures
        a.regular().wf(),
{
    lemma_regular(a);
    let r = a.regular();
    assert forall|x: int| #[trigger] r.has(x) implies r.a(a.unit, x) == x by {
        assert(a.has(x) && a.has(a.unit));
    }
    assert forall|s: int, t: int, x: int| #[trigger] a.has(s) && #[trigger] a.has(t) && #[trigger] r.has(x) implies r.a(
        a.m(s, t),
        x,
    ) == r.a(s, r.a(t, x)) by {
        assert(a.has(x));
        lemma_mul(a, s, t);
        lemma_mul(a, t, x);
    }
}

/// Restriction along a homomorphism is a module.
pub proof fn law_restricted_module(a: Mon, b: Mon, back: Fun)
    requires
        a.wf(),
        b.wf(),
        back.wf(),
        Mon::is_hom(back, b, a),
    ensures
        Mod::restricted(a, b, back).wf(),
{
    lemma_restricted(a, b, back);
    let r = Mod::restricted(a, b, back);
    assert forall|x: int| #[trigger] r.has(x) implies r.a(b.unit, x) == x by {
        assert(a.has(x) && b.has(b.unit));
    }
    assert forall|s: int, t: int, x: int| #[trigger] b.has(s) && #[trigger] b.has(t) && #[trigger] r.has(x) implies r.a(
        b.m(s, t),
        x,
    ) == r.a(s, r.a(t, x)) by {
        assert(a.has(x));
        lemma_mul(b, s, t);
        assert(a.has(back.map[s]) && a.has(back.map[t]));
        lemma_mul(a, back.map[t], x);
    }
}

// ----- the tensor product -----

/// `((x, y), b) ↦ (b · x, y)`.
pub open spec fn bal_left(x: Mod, y: Mod) -> Fun {
    let s = x.scalar.carrier;
    let n = x.carrier * y.carrier;
    Fun {
        dom: n * s,
        cod: n,
        map: Seq::new((n * s) as nat, |k: int| x.a(k % s, (k / s) / y.carrier) * y.carrier + (k / s) % y.carrier),
    }
}

/// `((x, y), b) ↦ (x, b · y)`.
pub open spec fn bal_right(x: Mod, y: Mod) -> Fun {
    let s = x.scalar.carrier;
    let n = x.carrier * y.carrier;
    Fun {
        dom: n * s,
        cod: n,
        map: Seq::new((n * s) as nat, |k: int| ((k / s) / y.carrier) * y.carrier + y.a(k % s, (k / s) % y.carrier)),
    }
}

/// The projection `X × Y → X ⊗ Y`.
pub open spec fn tensor_proj(x: Mod, y: Mod) -> Fun {
    Fun::coeq(bal_left(x, y), bal_right(x, y))
}

/// `h(b · x, y) = h(x, b · y)`.
pub open spec fn balanced(x: Mod, y: Mod, h: Fun) -> bool {
    forall|b: int, e: int, v: int| #[trigger]
        x.scalar.has(b) && #[trigger] x.has(e) && #[trigger] y.has(v) ==> h.map[x.a(b, e) * y.carrier + v] == h.map[e
            * y.carrier + y.a(b, v)]
}

pub proof fn lemma_bal(x: Mod, y: Mod)
    requires
        x.shaped(),
        y.shaped(),
        x.scalar == y.scalar,
    ensures
        bal_left(x, y).wf(),
        bal_right(x, y).wf(),
{
    let s = x.scalar.carrier;
    let n = x.carrier * y.carrier;
    assert(n >= 0) by (nonlinear_arith) requires x.carrier >= 0, y.carrier >= 0, n == x.carrier * y.carrier;
    assert(n * s >= 0) by (nonlinear_arith) requires n >= 0, s >= 0;
    let l = bal_left(x, y);
    let r = bal_right(x, y);
    assert forall|k: int| 0 <= k < n * s implies 0 <= #[trigger] l.map[k] < n by {
        crate::theory::limits::lemma_unpair(n, s, k);
        crate::theory::limits::lemma_unpair(x.carrier, y.carrier, k / s);
        lemma_act(x, k % s, (k / s) / y.carrier);
        crate::theory::limits::lemma_pair_index(
            x.carrier,
            y.carrier,
            x.a(k % s, (k / s) / y.carrier),
            (k / s) % y.carrier,
        );
    }
    assert forall|k: int| 0 <= k < n * s implies 0 <= #[trigger] r.map[k] < n by {
        crate::theory::limits::lemma_unpair(n, s, k);
        crate::theory::limits::lemma_unpair(x.carrier, y.carrier, k / s);
        lemma_act(y, k % s, (k / s) % y.carrier);
        crate::theory::limits::lemma_pair_index(
            x.carrier,
            y.carrier,
            (k / s) / y.carrier,
            y.a(k % s, (k / s) % y.carrier),
        );
    }
}

/// Where the two maps send the triple of `x`, `y` and `b`.
proof fn lemma_bal_at(x: Mod, y: Mod, b: int, e: int, v: int) -> (k: int)
    requires
        x.shaped(),
        y.shaped(),
        x.scalar == y.scalar,
        x.scalar.has(b),
        x.has(e),
        y.has(v),
    ensures
        0 <= k < bal_left(x, y).dom,
        bal_left(x, y).map[k] == x.a(b, e) * y.carrier + v,
        bal_right(x, y).map[k] == e * y.carrier + y.a(b, v),
{
    let s = x.scalar.carrier;
    let n = x.carrier * y.carrier;
    let p = e * y.carrier + v;
    crate::theory::limits::lemma_pair_index(x.carrier, y.carrier, e, v);
    crate::theory::limits::lemma_pair_index(n, s, p, b);
    p * s + b
}

/// The tensor product identifies the two actions, and nothing that it need not.
pub proof fn lemma_tensor(x: Mod, y: Mod)
    requires
        x.shaped(),
        y.shaped(),
        x.scalar == y.scalar,
    ensures
        tensor_proj(x, y).hom(x.carrier * y.carrier, tensor_proj(x, y).cod),
        tensor_proj(x, y).onto(),
        balanced(x, y, tensor_proj(x, y)),
        forall|h: Fun| #[trigger] h.wf() && h.dom == x.carrier * y.carrier && balanced(x, y, h) ==> tensor_proj(x, y).kernel_of(
            h,
        ),
{
    let l = bal_left(x, y);
    let r = bal_right(x, y);
    let q = tensor_proj(x, y);
    lemma_bal(x, y);
    crate::theory::colimits::lemma_coeq(l, r);
    assert forall|b: int, e: int, v: int| #[trigger] x.scalar.has(b) && #[trigger] x.has(e) && #[trigger] y.has(v)
        implies q.map[x.a(b, e) * y.carrier + v] == q.map[e * y.carrier + y.a(b, v)] by {
        let k = lemma_bal_at(x, y, b, e, v);
        assert(q.map[l.map[k]] == q.map[r.map[k]]);
    }
    assert forall|h: Fun| #[trigger] h.wf() && h.dom == x.carrier * y.carrier && balanced(x, y, h) implies q.kernel_of(h) by {
        let s = x.scalar.carrier;
        let n = x.carrier * y.carrier;
        assert forall|k: int| 0 <= k < l.dom implies h.o(l).map[k] == h.o(r).map[k] by {
            crate::theory::limits::lemma_unpair(n, s, k);
            crate::theory::limits::lemma_unpair(x.carrier, y.carrier, k / s);
            assert(x.scalar.has(k % s) && x.has((k / s) / y.carrier) && y.has((k / s) % y.carrier));
            assert(h.o(l).map[k] == h.map[l.map[k]]);
            assert(h.o(r).map[k] == h.map[r.map[k]]);
        }
        assert(h.o(l) =~= h.o(r));
        crate::theory::colimits::lemma_coeq_kernel(l, r, h);
    }
}

/// The tensor product classifies balanced functions: each of them factors
/// through the projection in exactly one way.
pub proof fn law_tensor(x: Mod, y: Mod, h: Fun)
    requires
        x.wf(),
        y.wf(),
        x.scalar == y.scalar,
        h.wf(),
        h.dom == x.carrier * y.carrier,
        balanced(x, y, h),
    ensures
        balanced(x, y, tensor_proj(x, y)),
        tensor_proj(x, y).desc(h).hom(tensor_proj(x, y).cod, h.cod),
        tensor_proj(x, y).desc(h).o(tensor_proj(x, y)) == h,
        forall|m: Fun| #[trigger] m.hom(tensor_proj(x, y).cod, h.cod) && m.o(tensor_proj(x, y)) == h ==> m == tensor_proj(
            x,
            y,
        ).desc(h),
{
    let q = tensor_proj(x, y);
    lemma_tensor(x, y);
    crate::theory::fun::lemma_desc(q, h);
    assert forall|m: Fun| #[trigger] m.hom(q.cod, h.cod) && m.o(q) == h implies m == q.desc(h) by {
        crate::theory::fun::lemma_onto_epi(q, m, q.desc(h));
    }
}

// ----- the action map -----

/// `(a, m) ↦ a · m`.
pub open spec fn action(m: Mod) -> Fun {
    Fun {
        dom: m.scalar.carrier * m.carrier,
        cod: m.carrier,
        map: Seq::new((m.scalar.carrier * m.carrier) as nat, |k: int| m.a(k / m.carrier, k % m.carrier)),
    }
}

pub proof fn lemma_action(m: Mod)
    requires
        m.shaped(),
    ensures
        action(m).hom(m.scalar.carrier * m.carrier, m.carrier),
        forall|s: int, x: int| #[trigger] m.scalar.has(s) && #[trigger] m.has(x) ==> action(m).map[s * m.carrier + x] == m.a(
            s,
            x,
        ),
{
    let h = action(m);
    assert(m.scalar.carrier * m.carrier >= 0) by (nonlinear_arith) requires m.scalar.carrier >= 0, m.carrier >= 0;
    assert forall|k: int| 0 <= k < h.dom implies 0 <= #[trigger] h.map[k] < m.carrier by {
        crate::theory::limits::lemma_unpair(m.scalar.carrier, m.carrier, k);
        lemma_act(m, k / m.carrier, k % m.carrier);
    }
    assert forall|s: int, x: int| #[trigger] m.scalar.has(s) && #[trigger] m.has(x) implies h.map[s * m.carrier + x] == m.a(
        s,
        x,
    ) by {
        crate::theory::limits::lemma_pair_index(m.scalar.carrier, m.carrier, s, x);
    }
}

/// `(b · a) · m = a · (b · m)` for all scalars: the action descends to the
/// tensor product of the regular module with `m`.
pub open spec fn descends(m: Mod) -> bool {
    balanced(m.scalar.regular(), m, action(m))
}

/// The action of a module descends, and the map `A ⊗_A M → M` that it gives
/// is an isomorphism.
pub proof fn law_action_descends(m: Mod)
    requires
        m.wf(),
    ensures
        descends(m),
        tensor_proj(m.scalar.regular(), m).desc(action(m)).iso(),
{
    let a = m.scalar;
    let r = a.regular();
    let h = action(m);
    let q = tensor_proj(r, m);
    law_regular_module(a);
    lemma_regular(a);
    lemma_action(m);
    assert forall|b: int, e: int, v: int| #[trigger] r.scalar.has(b) && #[trigger] r.has(e) && #[trigger] m.has(v)
        implies h.map[r.a(b, e) * m.carrier + v] == h.map[e * m.carrier + m.a(b, v)] by {
        assert(a.has(e));
        lemma_mul(a, b, e);
        lemma_act(m, b, v);
        assert(a.m(b, e) == a.m(e, b));
        assert(m.a(a.m(e, b), v) == m.a(e, m.a(b, v)));
    }
    assert(balanced(r, m, h));
    lemma_tensor(r, m);
    crate::theory::fun::lemma_desc(q, h);
    let u = q.desc(h);
    let one = a.unit;
    assert(a.has(one));
    assert forall|k: int| 0 <= k < q.dom implies #[trigger] q.map[k] == q.map[one * m.carrier + h.map[k]] by {
        crate::theory::limits::lemma_unpair(a.carrier, m.carrier, k);
        let s = k / m.carrier;
        let v = k % m.carrier;
        assert(r.scalar.has(s) && r.has(one) && m.has(v));
        assert(a.has(s));
        assert(r.a(s, one) == s);
    }
    assert forall|c: int, d: int| 0 <= c < u.dom && 0 <= d < u.dom && #[trigger] u.map[c] == #[trigger] u.map[d]
        implies c == d by {
        let i = q.pre(c);
        let j = q.pre(d);
        assert(q.hits(c, i) && q.hits(d, j));
        assert(q.map[i] == c && q.map[j] == d);
        assert(h.map[i] == h.map[j]);
    }
    assert forall|v: int| 0 <= v < u.cod implies #[trigger] u.hits(v, u.pre(v)) by {
        assert(m.has(v));
        crate::theory::limits::lemma_pair_index(a.carrier, m.carrier, one, v);
        let k = one * m.carrier + v;
        assert(h.map[k] == m.a(one, v));
        assert(u.map[q.map[k]] == h.map[k]);
        assert(u.hits(v, q.map[k]));
    }
    crate::theory::fun::lemma_bijective(u);
}

// ----- scalars on a restricted tensor -----

/// `(x', y) ↦ (a · x', y)` on `A × Y`.
pub open spec fn scale(a: Mon, y: Mod, s: int) -> Fun {
    let n = a.carrier * y.carrier;
    Fun { dom: n, cod: n, map: Seq::new(n as nat, |k: int| a.m(s, k / y.carrier) * y.carrier + k % y.carrier) }
}

/// The action of `s` on `A ⊗_B Y`, on classes.
pub open spec fn tensor_scale(a: Mon, b: Mon, back: Fun, y: Mod, s: int) -> Fun {
    let q = tensor_proj(Mod::restricted(a, b, back), y);
    q.desc(q.o(scale(a, y, s)))
}

pub proof fn lemma_scale(a: Mon, y: Mod, s: int)
    requires
        a.shaped(),
        y.shaped(),
        a.has(s),
    ensures
        scale(a, y, s).hom(a.carrier * y.carrier, a.carrier * y.carrier),
        forall|e: int, v: int| #[trigger] a.has(e) && #[trigger] y.has(v) ==> scale(a, y, s).map[e * y.carrier + v] == a.m(s, e)
            * y.carrier + v,
{
    let h = scale(a, y, s);
    assert(a.carrier * y.carrier >= 0) by (nonlinear_arith) requires a.carrier >= 0, y.carrier >= 0;
    assert forall|k: int| 0 <= k < h.dom implies 0 <= #[trigger] h.map[k] < h.cod by {
        crate::theory::limits::lemma_unpair(a.carrier, y.carrier, k);
        lemma_mul(a, s, k / y.carrier);
        crate::theory::limits::lemma_pair_index(a.carrier, y.carrier, a.m(s, k / y.carrier), k % y.carrier);
    }
    assert forall|e: int, v: int| #[trigger] a.has(e) && #[trigger] y.has(v) implies h.map[e * y.carrier + v] == a.m(s, e)
        * y.carrier + v by {
        crate::theory::limits::lemma_pair_index(a.carrier, y.carrier, e, v);
    }
}

/// Scalars of `A` act on the classes of `A ⊗_B Y`.
pub proof fn lemma_tensor_scale(a: Mon, b: Mon, back: Fun, y: Mod, s: int)
    requires
        a.wf(),
        b.wf(),
        y.wf(),
        y.scalar == b,
        back.wf(),
        Mon::is_hom(back, b, a),
        a.has(s),
    ensures
        ({
            let q = tensor_proj(Mod::restricted(a, b, back), y);
            let t = tensor_scale(a, b, back, y, s);
            &&& q.kernel_of(q.o(scale(a, y, s)))
            &&& q.hom(a.carrier * y.carrier, q.cod)
            &&& q.onto()
            &&& t.hom(q.cod, q.cod)
            &&& forall|e: int, v: int| #[trigger] a.has(e) && #[trigger] y.has(v) ==> t.map[q.map[e * y.carrier + v]]
                == q.map[a.m(s, e) * y.carrier + v]
        }),
{
    let x = Mod::restricted(a, b, back);
    let q = tensor_proj(x, y);
    let sc = scale(a, y, s);
    let h = q.o(sc);
    law_restricted_module(a, b, back);
    lemma_restricted(a, b, back);
    lemma_tensor(x, y);
    lemma_scale(a, y, s);
    assert forall|c: int, e: int, v: int| #[trigger] x.scalar.has(c) && #[trigger] x.has(e) && #[trigger] y.has(v)
        implies h.map[x.a(c, e) * y.carrier + v] == h.map[e * y.carrier + y.a(c, v)] by {
        assert(a.has(e));
        assert(b.has(c));
        lemma_act(x, c, e);
        lemma_act(y, c, v);
        lemma_mul(a, s, e);
        let z = a.m(s, e);
        let bc = back.map[c];
        assert(a.has(bc));
        assert(x.has(z));
        assert(a.has(z));
        crate::theory::limits::lemma_pair_index(a.carrier, y.carrier, x.a(c, e), v);
        crate::theory::limits::lemma_pair_index(a.carrier, y.carrier, e, y.a(c, v));
        assert(a.has(x.a(c, e)));
        assert(h.map[x.a(c, e) * y.carrier + v] == q.map[a.m(s, x.a(c, e)) * y.carrier + v]);
        assert(h.map[e * y.carrier + y.a(c, v)] == q.map[z * y.carrier + y.a(c, v)]);
        assert(x.a(c, e) == a.m(bc, e));
        assert(a.m(s, a.m(bc, e)) == a.m(a.m(s, bc), e));
        assert(a.m(s, bc) == a.m(bc, s));
        assert(a.m(a.m(bc, s), e) == a.m(bc, a.m(s, e)));
        assert(x.a(c, z) == a.m(bc, z));
    }
    assert(h.wf());
    assert(balanced(x, y, h));
    assert(q.kernel_of(h));
    crate::theory::fun::lemma_desc(q, h);
    let t = tensor_scale(a, b, back, y, s);
    assert forall|e: int, v: int| #[trigger] a.has(e) && #[trigger] y.has(v) implies t.map[q.map[e * y.carrier + v]]
        == q.map[a.m(s, e) * y.carrier + v] by {
        crate::theory::limits::lemma_pair_index(a.carrier, y.carrier, e, v);
        let k = e * y.carrier + v;
        assert(t.map[q.map[k]] == h.map[k]);
        assert(h.map[k] == q.map[sc.map[k]]);
    }
}

/// The scalars act on `A ⊗_B Y` as a module: the unit as the identity, and
/// products in turn.
pub proof fn law_tensor_scale(a: Mon, b: Mon, back: Fun, y: Mod, s: int, t: int)
    requires
        a.wf(),
        b.wf(),
        y.wf(),
        y.scalar == b,
        back.wf(),
        Mon::is_hom(back, b, a),
        a.has(s),
        a.has(t),
    ensures
        ({
            let n = tensor_proj(Mod::restricted(a, b, back), y).cod;
            &&& tensor_scale(a, b, back, y, a.unit) == Fun::id(n)
            &&& tensor_scale(a, b, back, y, a.m(s, t)) == tensor_scale(a, b, back, y, s).o(tensor_scale(a, b, back, y, t))
        }),
{
    let q = tensor_proj(Mod::restricted(a, b, back), y);
    let n = q.cod;
    lemma_mul(a, s, t);
    assert(a.has(a.unit));
    lemma_tensor_scale(a, b, back, y, a.unit);
    lemma_tensor_scale(a, b, back, y, s);
    lemma_tensor_scale(a, b, back, y, t);
    lemma_tensor_scale(a, b, back, y, a.m(s, t));
    let one = tensor_scale(a, b, back, y, a.unit);
    let st = tensor_scale(a, b, back, y, a.m(s, t));
    let fs = tensor_scale(a, b, back, y, s);
    let ft = tensor_scale(a, b, back, y, t);
    assert forall|c: int| 0 <= c < n implies #[trigger] one.map[c] == c && st.map[c] == fs.map[ft.map[c]] by {
        let k = q.pre(c);
        assert(q.hits(c, k));
        crate::theory::limits::lemma_unpair(a.carrier, y.carrier, k);
        let e = k / y.carrier;
        let v = k % y.carrier;
        assert(a.has(e) && y.has(v));
        assert(a.m(a.unit, e) == e);
        lemma_mul(a, t, e);
        let z = a.m(t, e);
        assert(ft.map[q.map[e * y.carrier + v]] == q.map[z * y.carrier + v]);
        assert(a.has(z));
        assert(fs.map[q.map[z * y.carrier + v]] == q.map[a.m(s, z) * y.carrier + v]);
        assert(a.m(a.m(s, t), e) == a.m(s, a.m(t, e)));
    }
    assert(one =~= Fun::id(n));
    assert forall|c: int| 0 <= c < n implies #[trigger] st.map[c] == fs.o(ft).map[c] by {
        assert(one.map[c] == c);
    }
    assert(st =~= fs.o(ft));
}

/// One monoidal prism: a homomorphism `B → A` and a function into `A ⊗_B Y`.
#[verifier::ext_equal]
pub struct Datum {
    pub back: Fun,
    pub into: Fun,
}

/// The function is a homomorphism of `A`-modules `X → A ⊗_B Y`.
pub open spec fn is_linear(a: Mon, b: Mon, back: Fun, x: Mod, y: Mod, f: Fun) -> bool {
    forall|s: int, e: int| #[trigger]
        a.has(s) && #[trigger] x.has(e) ==> f.map[x.a(s, e)] == tensor_scale(a, b, back, y, s).map[f.map[e]]
}

// ----- stability -----

/// The product with a set preserves coequalizers: `coeq(f, g) × A` and
/// `coeq(f × A, g × A)` are isomorphic, compatibly with the projections, and so
/// have as many elements.
pub proof fn law_product_preserves_coequalizers(f: Fun, g: Fun, a: int) -> (u: Fun)
    requires
        f.wf(),
        g.wf(),
        f.dom == g.dom,
        f.cod == g.cod,
        a >= 0,
    ensures
        ({
            let q = Fun::coeq(f, g);
            let ia = Fun::id(a);
            let p = Fun::coeq(Fun::times(f, ia), Fun::times(g, ia));
            &&& u.hom(p.cod, q.cod * a)
            &&& u.iso()
            &&& u.o(p) == Fun::times(q, ia)
            &&& p.cod == q.cod * a
        }),
{
    let q = Fun::coeq(f, g);
    let ia = Fun::id(a);
    let fa = Fun::times(f, ia);
    let ga = Fun::times(g, ia);
    let p = Fun::coeq(fa, ga);
    let h = Fun::times(q, ia);
    crate::theory::monoidal::lemma_times(f, ia);
    crate::theory::monoidal::lemma_times(g, ia);
    crate::theory::colimits::lemma_coeq(f, g);
    crate::theory::monoidal::lemma_times(q, ia);
    crate::theory::colimits::lemma_coeq(fa, ga);
    assert forall|k: int| 0 <= k < fa.dom implies h.map[fa.map[k]] == h.map[ga.map[k]] by {
        crate::theory::limits::lemma_unpair(f.dom, a, k);
        let x = k / a;
        let c = k % a;
        assert(fa.map[k] == f.map[x] * a + c);
        assert(ga.map[k] == g.map[x] * a + c);
        assert(h.map[f.map[x] * a + c] == q.map[f.map[x]] * a + c);
        assert(h.map[g.map[x] * a + c] == q.map[g.map[x]] * a + c);
    }
    assert(h.o(fa) =~= h.o(ga));
    crate::theory::colimits::lemma_coeq_kernel(fa, ga, h);
    crate::theory::fun::lemma_desc(p, h);
    let u = p.desc(h);
    // `p` is constant on the fibres of `q`, for each fixed element of `A`.
    assert forall|y: int, z: int, c: int| 0 <= y < f.cod && 0 <= z < f.cod && 0 <= c < a && q.map[y] == q.map[z]
        implies #[trigger] p.map[y * a + c] == #[trigger] p.map[z * a + c] by {
        let r = Seq::new(f.cod as nat, |w: int| p.map[w * a + c]);
        assert forall|x: int| 0 <= x < f.dom implies r[#[trigger] f.map[x]] == r[g.map[x]] by {
            crate::theory::limits::lemma_pair_index(f.dom, a, x, c);
            let k = x * a + c;
            assert(fa.map[k] == f.map[x] * a + c);
            assert(ga.map[k] == g.map[x] * a + c);
            assert(p.map[fa.map[k]] == p.map[ga.map[k]]);
        }
        assert(crate::theory::colimits::respects(r, f, g));
        assert(crate::theory::colimits::glued(f, g, y, z));
        assert(r[y] == r[z]);
    }
    assert forall|c: int, d: int| 0 <= c < u.dom && 0 <= d < u.dom && #[trigger] u.map[c] == #[trigger] u.map[d]
        implies c == d by {
        let i = p.pre(c);
        let j = p.pre(d);
        assert(p.hits(c, i) && p.hits(d, j));
        crate::theory::limits::lemma_unpair(f.cod, a, i);
        crate::theory::limits::lemma_unpair(f.cod, a, j);
        assert(u.map[p.map[i]] == h.map[i] && u.map[p.map[j]] == h.map[j]);
        let (y, s) = (i / a, i % a);
        let (z, t) = (j / a, j % a);
        assert(h.map[i] == q.map[y] * a + s);
        assert(h.map[j] == q.map[z] * a + t);
        crate::theory::limits::lemma_pair_index(q.cod, a, q.map[y], s);
        crate::theory::limits::lemma_pair_index(q.cod, a, q.map[z], t);
        assert(p.map[y * a + s] == p.map[z * a + s]);
    }
    assert forall|w: int| 0 <= w < u.cod implies #[trigger] u.hits(w, u.pre(w)) by {
        crate::theory::limits::lemma_unpair(q.cod, a, w);
        let c = w / a;
        let s = w % a;
        let y = q.pre(c);
        assert(q.hits(c, y));
        crate::theory::limits::lemma_pair_index(f.cod, a, y, s);
        let k = y * a + s;
        assert(h.map[k] == q.map[y] * a + s);
        assert(u.map[p.map[k]] == h.map[k]);
        assert(u.hits(w, p.map[k]));
    }
    crate::theory::fun::lemma_bijective(u);
    u
}

} // verus!
