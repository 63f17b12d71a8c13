//! Coslices of finite sets and their reindexing along cospans.
use vstd::prelude::*;
use crate::theory::fun::Fun;
use crate::theory::colimits::Push;
use crate::theory::cospans::Cosp;

verus! {

/// An object `base → total` of the coslice under `base`.
#[verifier::ext_equal]
pub struct Under {
    pub base: int,
    pub total: int,
    pub leg: Fun,
}

/// A function between the totals of two coslices.
#[verifier::ext_equal]
pub struct UnderMor {
    pub dom: Under,
    pub cod: Under,
    pub map: Fun,
}

impl Under {
    pub open spec fn wf(self) -> bool {
        self.leg.hom(self.base, self.total)
    }
}

impl UnderMor {
    /// The function stays under one base.
    pub open spec fn wf(self) -> bool {
        &&& self.dom.wf()
        &&& self.cod.wf()
        &&& self.dom.base == self.cod.base
        &&& self.map.hom(self.dom.total, self.cod.total)
        &&& self.map.o(self.dom.leg) == self.cod.leg
    }

    pub open spec fn hom(self, x: Under, y: Under) -> bool {
        self.wf() && self.dom == x && self.cod == y
    }

    pub open spec fn id(y: Under) -> UnderMor {
        UnderMor { dom: y, cod: y, map: Fun::id(y.total) }
    }

    /// `self ∘ f`.
    pub open spec fn o(self, f: UnderMor) -> UnderMor {
        UnderMor { dom: f.dom, cod: self.cod, map: self.map.o(f.map) }
    }

    /// `Y → id* Y`.
    pub open spec fn theta_id(y: Under) -> UnderMor {
        UnderMor { dom: y, cod: Cosp::id(y.base).push(y), map: Push::of(y.leg, Fun::id(y.base)).from_left }
    }

    pub open spec fn theta_id_inv(y: Under) -> UnderMor {
        UnderMor { dom: Cosp::id(y.base).push(y), cod: y, map: Push::of(y.leg, Fun::id(y.base)).from_left.inv() }
    }

    /// `f*(g* Z) → (g ∘ f)* Z`, on generators of `Z` and of the two apices.
    pub open spec fn theta(f: Cosp, g: Cosp, z: Under) -> UnderMor {
        UnderMor { dom: f.push(g.push(z)), cod: Cosp::comp(g, f).push(z), map: Quad::of(f, g, z).fwd() }
    }

    pub open spec fn theta_inv(f: Cosp, g: Cosp, z: Under) -> UnderMor {
        UnderMor { dom: Cosp::comp(g, f).push(z), cod: f.push(g.push(z)), map: Quad::of(f, g, z).fwd().inv() }
    }

    /// `f* Y → g* Y` for a 2-cell `m: f ⇒ g`.
    pub open spec fn act(m: Fun, from: Cosp, to: Cosp, y: Under) -> UnderMor {
        UnderMor {
            dom: from.push(y),
            cod: to.push(y),
            map: from.glue(y).med(to.glue(y).from_left, to.glue(y).from_right.o(m)),
        }
    }
}

impl Cosp {
    /// The pushout that reindexes a coslice along this cospan.
    pub open spec fn glue(self, y: Under) -> Push {
        Push::of(y.leg, self.from_right)
    }

    /// `f* Y`.
    pub open spec fn push(self, y: Under) -> Under {
        Under { base: self.left, total: self.glue(y).apex, leg: self.glue(y).from_right.o(self.from_left) }
    }

    /// `f*` on a coslice morphism.
    pub open spec fn push_mor(self, m: UnderMor) -> UnderMor {
        UnderMor {
            dom: self.push(m.dom),
            cod: self.push(m.cod),
            map: self.glue(m.dom).med(self.glue(m.cod).from_left.o(m.map), self.glue(m.cod).from_right),
        }
    }
}

/// The functions around `f*(g* Z)`: `M ← B → N ← C → Z`.
#[verifier::ext_equal]
pub struct Quad {
    pub fr: Fun,
    pub gl: Fun,
    pub gr: Fun,
    pub zl: Fun,
}

impl Quad {
    pub open spec fn of(f: Cosp, g: Cosp, z: Under) -> Quad {
        Quad { fr: f.from_right, gl: g.from_left, gr: g.from_right, zl: z.leg }
    }

    pub open spec fn wf(self) -> bool {
        &&& self.fr.wf()
        &&& self.gl.wf()
        &&& self.gr.wf()
        &&& self.zl.wf()
        &&& self.fr.dom == self.gl.dom
        &&& self.gl.cod == self.gr.cod
        &&& self.gr.dom == self.zl.dom
    }

    /// `Z ⊔_C N`.
    pub open spec fn zn(self) -> Push {
        Push::of(self.zl, self.gr)
    }

    /// `B → Z ⊔_C N`.
    pub open spec fn into_zn(self) -> Fun {
        self.zn().from_right.o(self.gl)
    }

    /// `(Z ⊔_C N) ⊔_B M`.
    pub open spec fn inner(self) -> Push {
        Push::of(self.into_zn(), self.fr)
    }

    /// `M ⊔_B N`.
    pub open spec fn mn(self) -> Push {
        Push::of(self.fr, self.gl)
    }

    /// `C → M ⊔_B N`.
    pub open spec fn into_mn(self) -> Fun {
        self.mn().from_right.o(self.gr)
    }

    /// `Z ⊔_C (M ⊔_B N)`.
    pub open spec fn outer(self) -> Push {
        Push::of(self.zl, self.into_mn())
    }

    pub open spec fn fwd_zn(self) -> Fun {
        self.zn().med(self.outer().from_left, self.outer().from_right.o(self.mn().from_right))
    }

    pub open spec fn fwd(self) -> Fun {
        self.inner().med(self.fwd_zn(), self.outer().from_right.o(self.mn().from_left))
    }

    pub open spec fn bwd_mn(self) -> Fun {
        self.mn().med(self.inner().from_right, self.inner().from_left.o(self.zn().from_right))
    }

    pub open spec fn bwd(self) -> Fun {
        self.outer().med(self.inner().from_left.o(self.zn().from_left), self.bwd_mn())
    }
}

/// `g` may follow `f` and `z` lies under the right foot of `g`.
pub open spec fn coadjacent(f: Cosp, g: Cosp, z: Under) -> bool {
    f.wf() && g.wf() && z.wf() && f.right == g.left && g.right == z.base
}

pub proof fn lemma_quad_wf(t: Quad)
    requires
        t.wf(),
    ensures
        t.zn().from_left.hom(t.zl.cod, t.zn().apex),
        t.zn().from_right.hom(t.gr.cod, t.zn().apex),
        t.into_zn().hom(t.gl.dom, t.zn().apex),
        t.mn().from_left.hom(t.fr.cod, t.mn().apex),
        t.mn().from_right.hom(t.gl.cod, t.mn().apex),
        t.into_mn().hom(t.gr.dom, t.mn().apex),
        t.inner().from_left.hom(t.zn().apex, t.inner().apex),
        t.inner().from_right.hom(t.fr.cod, t.inner().apex),
        t.outer().from_left.hom(t.zl.cod, t.outer().apex),
        t.outer().from_right.hom(t.mn().apex, t.outer().apex),
        forall|b: int| 0 <= b < t.fr.dom ==> t.mn().from_left.map[#[trigger] t.fr.map[b]] == t.mn().from_right.map[t.gl.map[b]],
        forall|c: int| 0 <= c < t.gr.dom ==> t.zn().from_left.map[t.zl.map[c]] == t.zn().from_right.map[#[trigger] t.gr.map[c]],
        forall|b: int| 0 <= b < t.fr.dom ==> t.inner().from_left.map[t.zn().from_right.map[t.gl.map[b]]]
            == t.inner().from_right.map[#[trigger] t.fr.map[b]],
        forall|c: int| 0 <= c < t.gr.dom ==> t.outer().from_left.map[t.zl.map[c]]
            == t.outer().from_right.map[t.mn().from_right.map[#[trigger] t.gr.map[c]]],
{
    crate::theory::colimits::lemma_push(t.zl, t.gr);
    crate::theory::colimits::lemma_push(t.fr, t.gl);
    crate::theory::colimits::lemma_push(t.into_zn(), t.fr);
    crate::theory::colimits::lemma_push(t.zl, t.into_mn());
    assert forall|b: int| 0 <= b < t.fr.dom implies t.inner().from_left.map[t.zn().from_right.map[t.gl.map[b]]]
        == t.inner().from_right.map[#[trigger] t.fr.map[b]] by {
        assert(t.into_zn().map[b] == t.zn().from_right.map[t.gl.map[b]]);
    }
    assert forall|c: int| 0 <= c < t.gr.dom implies t.outer().from_left.map[t.zl.map[c]]
        == t.outer().from_right.map[t.mn().from_right.map[#[trigger] t.gr.map[c]]] by {
        assert(t.into_mn().map[c] == t.mn().from_right.map[t.gr.map[c]]);
    }
}

/// The two nestings match on the generators.
pub proof fn lemma_quad(t: Quad)
    requires
        t.wf(),
    ensures
        t.fwd().hom(t.inner().apex, t.outer().apex),
        t.bwd().hom(t.outer().apex, t.inner().apex),
        forall|i: int| 0 <= i < t.zl.cod ==> t.fwd().map[t.inner().from_left.map[#[trigger] t.zn().from_left.map[i]]]
            == t.outer().from_left.map[i],
        forall|i: int| 0 <= i < t.gl.cod ==> t.fwd().map[t.inner().from_left.map[#[trigger] t.zn().from_right.map[i]]]
            == t.outer().from_right.map[t.mn().from_right.map[i]],
        forall|i: int| 0 <= i < t.fr.cod ==> t.fwd().map[#[trigger] t.inner().from_right.map[i]]
            == t.outer().from_right.map[t.mn().from_left.map[i]],
        forall|i: int| 0 <= i < t.zl.cod ==> t.bwd().map[#[trigger] t.outer().from_left.map[i]]
            == t.inner().from_left.map[t.zn().from_left.map[i]],
        forall|i: int| 0 <= i < t.gl.cod ==> t.bwd().map[t.outer().from_right.map[#[trigger] t.mn().from_right.map[i]]]
            == t.inner().from_left.map[t.zn().from_right.map[i]],
        forall|i: int| 0 <= i < t.fr.cod ==> t.bwd().map[t.outer().from_right.map[#[trigger] t.mn().from_left.map[i]]]
            == t.inner().from_right.map[i],
{
    lemma_quad_wf(t);
    let zn = t.zn();
    let mn = t.mn();
    let inn = t.inner();
    let out = t.outer();
    let a = out.from_right.o(mn.from_right);
    assert forall|z: int| 0 <= z < t.zl.dom implies out.from_left.map[#[trigger] t.zl.map[z]] == a.map[t.gr.map[z]] by {
        assert(t.gr.map[z] >= 0);
    }
    crate::theory::colimits::lemma_push_med(t.zl, t.gr, out.from_left, a);
    let b = out.from_right.o(mn.from_left);
    let u = t.fwd_zn();
    assert forall|z: int| 0 <= z < t.fr.dom implies u.map[#[trigger] t.into_zn().map[z]] == b.map[t.fr.map[z]] by {
        assert(t.into_zn().map[z] == zn.from_right.map[t.gl.map[z]]);
        assert(u.map[zn.from_right.map[t.gl.map[z]]] == a.map[t.gl.map[z]]);
        assert(mn.from_left.map[t.fr.map[z]] == mn.from_right.map[t.gl.map[z]]);
    }
    crate::theory::colimits::lemma_push_med(t.into_zn(), t.fr, u, b);
    let c = inn.from_left.o(zn.from_right);
    assert forall|z: int| 0 <= z < t.fr.dom implies inn.from_right.map[#[trigger] t.fr.map[z]] == c.map[t.gl.map[z]] by {
    }
    crate::theory::colimits::lemma_push_med(t.fr, t.gl, inn.from_right, c);
    let d = inn.from_left.o(zn.from_left);
    let v = t.bwd_mn();
    assert forall|z: int| 0 <= z < t.zl.dom implies d.map[#[trigger] t.zl.map[z]] == v.map[t.into_mn().map[z]] by {
        assert(t.into_mn().map[z] == mn.from_right.map[t.gr.map[z]]);
        assert(v.map[mn.from_right.map[t.gr.map[z]]] == c.map[t.gr.map[z]]);
    }
    crate::theory::colimits::lemma_push_med(t.zl, t.into_mn(), d, v);
}

pub proof fn lemma_quad_iso(t: Quad)
    requires
        t.wf(),
    ensures
        t.fwd().iso(),
        t.bwd().o(t.fwd()) == Fun::id(t.inner().apex),
        t.fwd().o(t.bwd()) == Fun::id(t.outer().apex),
        t.fwd().inv() == t.bwd(),
{
    lemma_quad_wf(t);
    lemma_quad(t);
    let f = t.fwd();
    let b = t.bwd();
    assert forall|c: int| 0 <= c < f.dom implies b.map[#[trigger] f.map[c]] == c by {
        let r = crate::theory::colimits::lemma_push_cases(t.into_zn(), t.fr, c);
        if r.0 {
            let s = crate::theory::colimits::lemma_push_cases(t.zl, t.gr, r.1);
            if !s.0 {
                assert(t.mn().from_right.map[s.1] >= 0);
            }
        } else {
            assert(t.mn().from_left.map[r.1] >= 0);
        }
    }
    assert forall|c: int| 0 <= c < b.dom implies f.map[#[trigger] b.map[c]] == c by {
        let r = crate::theory::colimits::lemma_push_cases(t.zl, t.into_mn(), c);
        if r.0 {
            assert(t.zn().from_left.map[r.1] >= 0);
        } else {
            let s = crate::theory::colimits::lemma_push_cases(t.fr, t.gl, r.1);
            if !s.0 {
                assert(t.zn().from_right.map[s.1] >= 0);
            }
        }
    }
    assert(b.o(f) =~= Fun::id(f.dom));
    assert(f.o(b) =~= Fun::id(b.dom));
    crate::theory::fun::lemma_two_sided(f, b);
}

// ----- the coslice categories -----

/// Coslices under one base form a category.
pub proof fn law_coslice_category(h: UnderMor, g: UnderMor, f: UnderMor)
    requires
        f.wf(),
        g.wf(),
        h.wf(),
        f.cod == g.dom,
        g.cod == h.dom,
    ensures
        g.o(f).hom(f.dom, g.cod),
        UnderMor::id(f.dom).hom(f.dom, f.dom),
        f.o(UnderMor::id(f.dom)) == f,
        UnderMor::id(f.cod).o(f) == f,
        h.o(g.o(f)) == h.o(g).o(f),
{
    crate::theory::fun::law_identity(f.map);
    crate::theory::fun::law_identity(f.dom.leg);
    crate::theory::fun::law_associative(h.map, g.map, f.map);
    crate::theory::fun::law_associative(g.map, f.map, f.dom.leg);
}

pub proof fn lemma_under_o(g: UnderMor, f: UnderMor)
    requires
        f.wf(),
        g.wf(),
        f.cod == g.dom,
    ensures
        g.o(f).hom(f.dom, g.cod),
        forall|i: int| 0 <= i < f.map.dom ==> #[trigger] g.o(f).map.map[i] == g.map.map[f.map.map[i]],
{
    crate::theory::fun::law_associative(g.map, f.map, f.dom.leg);
}

pub proof fn lemma_under_id(y: Under)
    requires
        y.wf(),
    ensures
        UnderMor::id(y).hom(y, y),
{
    crate::theory::fun::law_identity(y.leg);
}

pub proof fn lemma_cotriangle(m: UnderMor)
    requires
        m.wf(),
    ensures
        forall|i: int| 0 <= i < m.dom.base ==> m.map.map[#[trigger] m.dom.leg.map[i]] == m.cod.leg.map[i],
        forall|i: int| 0 <= i < m.dom.base ==> m.map.map[m.dom.leg.map[i]] == #[trigger] m.cod.leg.map[i],
{
    assert forall|i: int| 0 <= i < m.dom.base implies m.map.map[#[trigger] m.dom.leg.map[i]] == m.cod.leg.map[i] by {
        assert(m.map.o(m.dom.leg).map[i] == m.map.map[m.dom.leg.map[i]]);
    }
}

// ----- reindexing -----

pub proof fn lemma_push_wf(f: Cosp, y: Under)
    requires
        f.wf(),
        y.wf(),
        f.right == y.base,
    ensures
        f.push(y).wf(),
        f.push(y).base == f.left,
        f.glue(y).from_left.hom(y.total, f.push(y).total),
        f.glue(y).from_right.hom(f.apex, f.push(y).total),
        f.glue(y).apex == f.push(y).total,
        0 <= f.push(y).total <= y.total + f.apex,
        forall|i: int| 0 <= i < f.left ==> #[trigger] f.push(y).leg.map[i] == f.glue(y).from_right.map[f.from_left.map[i]],
        forall|b: int| 0 <= b < f.right ==> f.glue(y).from_left.map[#[trigger] y.leg.map[b]]
            == f.glue(y).from_right.map[f.from_right.map[b]],
        forall|b: int| 0 <= b < f.right ==> f.glue(y).from_left.map[y.leg.map[b]]
            == f.glue(y).from_right.map[#[trigger] f.from_right.map[b]],
{
    crate::theory::colimits::lemma_push(y.leg, f.from_right);
}

pub proof fn lemma_push_mor(f: Cosp, m: UnderMor)
    requires
        f.wf(),
        m.wf(),
        f.right == m.dom.base,
    ensures
        f.push_mor(m).hom(f.push(m.dom), f.push(m.cod)),
        forall|i: int| 0 <= i < m.dom.total ==> f.push_mor(m).map.map[#[trigger] f.glue(m.dom).from_left.map[i]]
            == f.glue(m.cod).from_left.map[m.map.map[i]],
        forall|i: int| 0 <= i < f.apex ==> f.push_mor(m).map.map[#[trigger] f.glue(m.dom).from_right.map[i]]
            == f.glue(m.cod).from_right.map[i],
        Push::quotient(m.dom.leg, f.from_right).kernel_of(
            crate::theory::colimits::Sum::copair(f.glue(m.cod).from_left.o(m.map), f.glue(m.cod).from_right),
        ),
{
    lemma_push_wf(f, m.dom);
    lemma_push_wf(f, m.cod);
    lemma_cotriangle(m);
    let p = f.glue(m.cod).from_left.o(m.map);
    let q = f.glue(m.cod).from_right;
    assert forall|z: int| 0 <= z < m.dom.leg.dom implies p.map[#[trigger] m.dom.leg.map[z]] == q.map[f.from_right.map[z]] by {
        assert(p.map[m.dom.leg.map[z]] == f.glue(m.cod).from_left.map[m.map.map[m.dom.leg.map[z]]]);
        assert(m.cod.leg.map[z] == m.map.map[m.dom.leg.map[z]]);
    }
    crate::theory::colimits::lemma_push_med(m.dom.leg, f.from_right, p, q);
    let r = f.push_mor(m);
    assert forall|i: int| 0 <= i < m.dom.total implies r.map.map[#[trigger] f.glue(m.dom).from_left.map[i]]
        == f.glue(m.cod).from_left.map[m.map.map[i]] by {
        assert(p.map[i] == f.glue(m.cod).from_left.map[m.map.map[i]]);
    }
    assert forall|i: int| 0 <= i < f.left implies r.map.o(r.dom.leg).map[i] == r.cod.leg.map[i] by {
        assert(r.dom.leg.map[i] == f.glue(m.dom).from_right.map[f.from_left.map[i]]);
    }
    assert(r.map.o(r.dom.leg) =~= r.cod.leg);
}

/// Reindexing coslices keeps identities and composites.
pub proof fn law_coreindex_functorial(f: Cosp, y: Under, nu: UnderMor, mu: UnderMor)
    requires
        f.wf(),
        y.wf(),
        f.right == y.base,
        mu.wf(),
        nu.wf(),
        mu.cod == nu.dom,
        f.right == mu.dom.base,
    ensures
        f.push_mor(UnderMor::id(y)) == UnderMor::id(f.push(y)),
        f.push_mor(nu.o(mu)) == f.push_mor(nu).o(f.push_mor(mu)),
{
    lemma_push_wf(f, y);
    lemma_under_id(y);
    lemma_push_mor(f, UnderMor::id(y));
    let e = f.push_mor(UnderMor::id(y));
    assert forall|c: int| 0 <= c < f.push(y).total implies #[trigger] e.map.map[c] == c by {
        let r = crate::theory::colimits::lemma_push_cases(y.leg, f.from_right, c);
        if r.0 {
            assert(Fun::id(y.total).map[r.1] == r.1);
        }
    }
    assert(e =~= UnderMor::id(f.push(y)));
    lemma_under_o(nu, mu);
    lemma_push_mor(f, mu);
    lemma_push_mor(f, nu);
    lemma_push_mor(f, nu.o(mu));
    lemma_push_wf(f, mu.dom);
    lemma_push_wf(f, mu.cod);
    let l = f.push_mor(nu.o(mu));
    let r = f.push_mor(nu).o(f.push_mor(mu));
    assert forall|c: int| 0 <= c < l.map.dom implies #[trigger] l.map.map[c] == r.map.map[c] by {
        let s = crate::theory::colimits::lemma_push_cases(mu.dom.leg, f.from_right, c);
        let j = f.push_mor(mu).map.map[c];
        assert(r.map.map[c] == f.push_mor(nu).map.map[j]);
        if s.0 {
            assert(nu.o(mu).map.map[s.1] == nu.map.map[mu.map.map[s.1]]);
            assert(j == f.glue(mu.cod).from_left.map[mu.map.map[s.1]]);
        } else {
            assert(j == f.glue(mu.cod).from_right.map[s.1]);
        }
    }
    assert(l =~= r);
}

// ----- θ -----

pub proof fn lemma_co_theta_id(y: Under)
    requires
        y.wf(),
    ensures
        UnderMor::theta_id(y).hom(y, Cosp::id(y.base).push(y)),
        UnderMor::theta_id_inv(y).hom(Cosp::id(y.base).push(y), y),
        UnderMor::theta_id(y).map.iso(),
        Cosp::id(y.base).wf(),
        forall|i: int| 0 <= i < y.total ==> UnderMor::theta_id_inv(y).map.map[#[trigger] UnderMor::theta_id(y).map.map[i]] == i,
        forall|c: int| 0 <= c < Cosp::id(y.base).push(y).total ==> UnderMor::theta_id(y).map.map[
            #[trigger] UnderMor::theta_id_inv(y).map.map[c]] == c,
        UnderMor::theta_id(y).map == Cosp::id(y.base).glue(y).from_left,
        forall|i: int| 0 <= i < y.base ==> #[trigger] Cosp::id(y.base).glue(y).from_right.map[i]
            == Cosp::id(y.base).glue(y).from_left.map[y.leg.map[i]],
{
    let e = Cosp::id(y.base);
    crate::theory::cospans::lemma_push_id_right(y.leg);
    lemma_push_wf(e, y);
    let t = UnderMor::theta_id(y);
    let u = UnderMor::theta_id_inv(y);
    crate::theory::fun::law_inverse(t.map);
    assert forall|c: int| 0 <= c < e.push(y).total implies t.map.map[#[trigger] u.map.map[c]] == c by {
        assert(t.map.o(u.map).map[c] == t.map.map[u.map.map[c]]);
        assert(Fun::id(t.map.cod).map[c] == c);
    }
    assert forall|i: int| 0 <= i < y.base implies #[trigger] e.glue(y).from_right.map[i] == e.glue(y).from_left.map[y.leg.map[i]] by {
        assert(e.from_right.map[i] == i);
        assert(e.glue(y).from_left.map[y.leg.map[i]] == e.glue(y).from_right.map[e.from_right.map[i]]);
    }
    assert forall|i: int| 0 <= i < y.base implies t.map.o(t.dom.leg).map[i] == t.cod.leg.map[i] by {
        assert(e.from_left.map[i] == i);
        assert(e.push(y).leg.map[i] == e.glue(y).from_right.map[e.from_left.map[i]]);
        assert(e.glue(y).from_right.map[i] == e.glue(y).from_left.map[y.leg.map[i]]);
    }
    assert(t.map.o(t.dom.leg) =~= t.cod.leg);
    assert forall|i: int| 0 <= i < y.base implies u.map.o(u.dom.leg).map[i] == u.cod.leg.map[i] by {
        assert(e.from_left.map[i] == i);
        assert(e.push(y).leg.map[i] == e.glue(y).from_right.map[e.from_left.map[i]]);
    }
    assert(u.map.o(u.dom.leg) =~= u.cod.leg);
}

/// The comparison with reindexing along an identity is invertible and natural.
pub proof fn law_co_theta_id(mor: UnderMor)
    requires
        mor.wf(),
    ensures
        UnderMor::theta_id_inv(mor.dom).o(UnderMor::theta_id(mor.dom)) == UnderMor::id(mor.dom),
        UnderMor::theta_id(mor.dom).o(UnderMor::theta_id_inv(mor.dom)) == UnderMor::id(Cosp::id(mor.dom.base).push(mor.dom)),
        UnderMor::theta_id(mor.cod).o(mor) == Cosp::id(mor.dom.base).push_mor(mor).o(UnderMor::theta_id(mor.dom)),
{
    let y = mor.dom;
    let z = mor.cod;
    let e = Cosp::id(y.base);
    lemma_co_theta_id(y);
    lemma_co_theta_id(z);
    lemma_push_mor(e, mor);
    let l = UnderMor::theta_id(z).o(mor);
    let r = e.push_mor(mor).o(UnderMor::theta_id(y));
    assert forall|i: int| 0 <= i < y.total implies l.map.map[i] == r.map.map[i] by {
        assert(l.map.map[i] == UnderMor::theta_id(z).map.map[mor.map.map[i]]);
        assert(r.map.map[i] == e.push_mor(mor).map.map[UnderMor::theta_id(y).map.map[i]]);
        assert(e.glue(y).from_left.map[i] == UnderMor::theta_id(y).map.map[i]);
    }
    assert(l =~= r);
    assert(UnderMor::theta_id_inv(y).o(UnderMor::theta_id(y)) =~= UnderMor::id(y));
    assert(UnderMor::theta_id(y).o(UnderMor::theta_id_inv(y)) =~= UnderMor::id(e.push(y)));
}

pub proof fn lemma_co_theta(f: Cosp, g: Cosp, z: Under)
    requires
        coadjacent(f, g, z),
    ensures
        UnderMor::theta(f, g, z).hom(f.push(g.push(z)), Cosp::comp(g, f).push(z)),
        UnderMor::theta_inv(f, g, z).hom(Cosp::comp(g, f).push(z), f.push(g.push(z))),
        UnderMor::theta(f, g, z).map.iso(),
        UnderMor::theta_inv(f, g, z).map == Quad::of(f, g, z).bwd(),
        Quad::of(f, g, z).wf(),
        Cosp::comp(g, f).wf(),
        g.push(z).wf(),
        g.glue(z) == Quad::of(f, g, z).zn(),
        g.push(z).leg == Quad::of(f, g, z).into_zn(),
        f.glue(g.push(z)) == Quad::of(f, g, z).inner(),
        Cosp::join(g, f) == Quad::of(f, g, z).mn(),
        Cosp::comp(g, f).from_right == Quad::of(f, g, z).into_mn(),
        Cosp::comp(g, f).glue(z) == Quad::of(f, g, z).outer(),
{
    let t = Quad::of(f, g, z);
    lemma_quad_wf(t);
    lemma_quad(t);
    lemma_quad_iso(t);
    crate::theory::cospans::lemma_cocomp_wf(g, f);
    lemma_push_wf(g, z);
    lemma_push_wf(f, g.push(z));
    let gf = Cosp::comp(g, f);
    lemma_push_wf(gf, z);
    let th = UnderMor::theta(f, g, z);
    let ti = UnderMor::theta_inv(f, g, z);
    assert forall|i: int| 0 <= i < f.left implies th.map.o(th.dom.leg).map[i] == th.cod.leg.map[i]
        && ti.map.o(ti.dom.leg).map[i] == ti.cod.leg.map[i] by {
        let a = f.from_left.map[i];
        assert(th.dom.leg.map[i] == t.inner().from_right.map[a]);
        assert(gf.from_left.map[i] == t.mn().from_left.map[a]);
        assert(th.cod.leg.map[i] == t.outer().from_right.map[t.mn().from_left.map[a]]);
    }
    assert(th.map.o(th.dom.leg) =~= th.cod.leg);
    assert(ti.map.o(ti.dom.leg) =~= ti.cod.leg);
}

/// The comparison with reindexing along a composite is invertible and natural.
pub proof fn law_co_theta_comp(f: Cosp, g: Cosp, mor: UnderMor)
    requires
        coadjacent(f, g, mor.dom),
        mor.wf(),
    ensures
        UnderMor::theta(f, g, mor.dom).wf(),
        UnderMor::theta(f, g, mor.dom).map.iso(),
        UnderMor::theta_inv(f, g, mor.dom).o(UnderMor::theta(f, g, mor.dom)) == UnderMor::id(f.push(g.push(mor.dom))),
        UnderMor::theta(f, g, mor.dom).o(UnderMor::theta_inv(f, g, mor.dom)) == UnderMor::id(Cosp::comp(g, f).push(mor.dom)),
        UnderMor::theta(f, g, mor.cod).o(f.push_mor(g.push_mor(mor)))
            == Cosp::comp(g, f).push_mor(mor).o(UnderMor::theta(f, g, mor.dom)),
        f.push_mor(g.push_mor(mor)).o(UnderMor::theta_inv(f, g, mor.dom))
            == UnderMor::theta_inv(f, g, mor.cod).o(Cosp::comp(g, f).push_mor(mor)),
{
    let y = mor.dom;
    let z = mor.cod;
    let gf = Cosp::comp(g, f);
    let ty = Quad::of(f, g, y);
    let tz = Quad::of(f, g, z);
    lemma_co_theta(f, g, y);
    lemma_co_theta(f, g, z);
    lemma_quad_wf(ty);
    lemma_quad_wf(tz);
    lemma_quad(ty);
    lemma_quad(tz);
    lemma_quad_iso(ty);
    lemma_quad_iso(tz);
    lemma_push_mor(g, mor);
    lemma_push_mor(f, g.push_mor(mor));
    lemma_push_mor(gf, mor);
    let a = f.push_mor(g.push_mor(mor));
    let b = gf.push_mor(mor);
    let thy = UnderMor::theta(f, g, y);
    let thz = UnderMor::theta(f, g, z);
    let l = thz.o(a);
    let r = b.o(thy);
    assert forall|c: int| 0 <= c < f.push(g.push(y)).total implies #[trigger] l.map.map[c] == r.map.map[c] by {
        assert(l.map.map[c] == thz.map.map[a.map.map[c]]);
        assert(r.map.map[c] == b.map.map[thy.map.map[c]]);
        let s = crate::theory::colimits::lemma_push_cases(ty.into_zn(), ty.fr, c);
        if s.0 {
            assert(a.map.map[c] == tz.inner().from_left.map[g.push_mor(mor).map.map[s.1]]);
            let q = crate::theory::colimits::lemma_push_cases(ty.zl, ty.gr, s.1);
            if q.0 {
                assert(g.push_mor(mor).map.map[s.1] == tz.zn().from_left.map[mor.map.map[q.1]]);
                assert(thy.map.map[c] == ty.outer().from_left.map[q.1]);
            } else {
                assert(g.push_mor(mor).map.map[s.1] == tz.zn().from_right.map[q.1]);
                assert(thy.map.map[c] == ty.outer().from_right.map[ty.mn().from_right.map[q.1]]);
            }
        } else {
            assert(a.map.map[c] == tz.inner().from_right.map[s.1]);
            assert(thy.map.map[c] == ty.outer().from_right.map[ty.mn().from_left.map[s.1]]);
        }
    }
    assert(l =~= r);
    let uy = UnderMor::theta_inv(f, g, y);
    let uz = UnderMor::theta_inv(f, g, z);
    assert(uy.o(thy) =~= UnderMor::id(f.push(g.push(y))));
    assert(thy.o(uy) =~= UnderMor::id(gf.push(y)));
    crate::theory::fun::law_associative(thz.map, a.map, uy.map);
    crate::theory::fun::law_associative(b.map, thy.map, uy.map);
    crate::theory::fun::law_identity(b.map);
    assert(thz.map.o(a.map.o(uy.map)) == b.map);
    let s = a.map.o(uy.map);
    crate::theory::fun::law_associative(uz.map, thz.map, s);
    crate::theory::fun::law_associative(a.map, uy.map, Fun::id(uy.map.dom));
    crate::theory::fun::law_identity(s);
    assert(uz.map.o(b.map) == s);
}

// ----- 2-cells -----

pub open spec fn is_cocell(m: Fun, from: Cosp, to: Cosp) -> bool {
    &&& from.wf()
    &&& to.wf()
    &&& from.left == to.left
    &&& from.right == to.right
    &&& m.hom(from.apex, to.apex)
    &&& from.cell(m, to)
}

pub proof fn lemma_co_act(m: Fun, from: Cosp, to: Cosp, y: Under)
    requires
        is_cocell(m, from, to),
        y.wf(),
        from.right == y.base,
    ensures
        UnderMor::act(m, from, to, y).hom(from.push(y), to.push(y)),
        forall|i: int| 0 <= i < y.total ==> UnderMor::act(m, from, to, y).map.map[#[trigger] from.glue(y).from_left.map[i]]
            == to.glue(y).from_left.map[i],
        forall|i: int| 0 <= i < from.apex ==> UnderMor::act(m, from, to, y).map.map[#[trigger] from.glue(y).from_right.map[i]]
            == to.glue(y).from_right.map[m.map[i]],
        Push::quotient(y.leg, from.from_right).kernel_of(
            crate::theory::colimits::Sum::copair(to.glue(y).from_left, to.glue(y).from_right.o(m)),
        ),
{
    lemma_push_wf(from, y);
    lemma_push_wf(to, y);
    let p = to.glue(y).from_left;
    let q = to.glue(y).from_right.o(m);
    assert forall|z: int| 0 <= z < y.leg.dom implies p.map[#[trigger] y.leg.map[z]] == q.map[from.from_right.map[z]] by {
        let x = from.from_right.map[z];
        assert(q.map[x] == to.glue(y).from_right.map[m.map[x]]);
        assert(m.o(from.from_right).map[z] == m.map[x]);
    }
    crate::theory::colimits::lemma_push_med(y.leg, from.from_right, p, q);
    let r = UnderMor::act(m, from, to, y);
    assert forall|i: int| 0 <= i < from.apex implies r.map.map[#[trigger] from.glue(y).from_right.map[i]]
        == to.glue(y).from_right.map[m.map[i]] by {
        assert(q.map[i] == to.glue(y).from_right.map[m.map[i]]);
    }
    assert forall|i: int| 0 <= i < from.left implies r.map.o(r.dom.leg).map[i] == r.cod.leg.map[i] by {
        let x = from.from_left.map[i];
        assert(r.dom.leg.map[i] == from.glue(y).from_right.map[x]);
        assert(m.o(from.from_left).map[i] == m.map[x]);
    }
    assert(r.map.o(r.dom.leg) =~= r.cod.leg);
}

/// The action of 2-cells on coslices is functorial, and natural in the coslice.
pub proof fn law_co_act_functorial(m: Fun, n: Fun, f: Cosp, g: Cosp, h: Cosp, mor: UnderMor)
    requires
        is_cocell(m, f, g),
        is_cocell(n, g, h),
        mor.wf(),
        f.right == mor.dom.base,
    ensures
        is_cocell(n.o(m), f, h),
        UnderMor::act(n.o(m), f, h, mor.dom) == UnderMor::act(n, g, h, mor.dom).o(UnderMor::act(m, f, g, mor.dom)),
        UnderMor::act(Fun::id(f.apex), f, f, mor.dom) == UnderMor::id(f.push(mor.dom)),
        UnderMor::act(m, f, g, mor.cod).o(f.push_mor(mor)) == g.push_mor(mor).o(UnderMor::act(m, f, g, mor.dom)),
{
    let y = mor.dom;
    crate::theory::cospans::law_co_two_cells_compose(f, g, h, m, n);
    lemma_co_act(m, f, g, y);
    lemma_co_act(n, g, h, y);
    lemma_co_act(n.o(m), f, h, y);
    lemma_co_act(Fun::id(f.apex), f, f, y);
    lemma_co_act(m, f, g, mor.cod);
    lemma_push_mor(f, mor);
    lemma_push_mor(g, mor);
    lemma_push_wf(f, y);
    lemma_push_wf(g, y);
    lemma_push_wf(f, mor.cod);
    let l = UnderMor::act(n.o(m), f, h, y);
    let am = UnderMor::act(m, f, g, y);
    let an = UnderMor::act(n, g, h, y);
    let r = an.o(am);
    let e = UnderMor::act(Fun::id(f.apex), f, f, y);
    let a = UnderMor::act(m, f, g, mor.cod).o(f.push_mor(mor));
    let b = g.push_mor(mor).o(am);
    assert forall|c: int| 0 <= c < f.push(y).total implies #[trigger] l.map.map[c] == r.map.map[c] && e.map.map[c] == c
        && a.map.map[c] == b.map.map[c] by {
        let s = crate::theory::colimits::lemma_push_cases(y.leg, f.from_right, c);
        assert(r.map.map[c] == an.map.map[am.map.map[c]]);
        assert(a.map.map[c] == UnderMor::act(m, f, g, mor.cod).map.map[f.push_mor(mor).map.map[c]]);
        assert(b.map.map[c] == g.push_mor(mor).map.map[am.map.map[c]]);
        if s.0 {
            assert(am.map.map[c] == g.glue(y).from_left.map[s.1]);
            assert(f.push_mor(mor).map.map[c] == f.glue(mor.cod).from_left.map[mor.map.map[s.1]]);
        } else {
            assert(n.o(m).map[s.1] == n.map[m.map[s.1]]);
            assert(Fun::id(f.apex).map[s.1] == s.1);
            assert(am.map.map[c] == g.glue(y).from_right.map[m.map[s.1]]);
            assert(f.push_mor(mor).map.map[c] == f.glue(mor.cod).from_right.map[s.1]);
        }
    }
    assert forall|c: int| 0 <= c < f.push(y).total implies e.map.map[c] == c && a.map.map[c] == b.map.map[c] by {
        assert(l.map.map[c] == r.map.map[c]);
    }
    assert(l =~= r);
    assert(e =~= UnderMor::id(f.push(y)));
    assert(a =~= b);
}

// ----- coherence -----

/// Reindexing along `f ∘ id` and dropping the identity is the identity.
pub proof fn law_co_coherence_right(f: Cosp, y: Under)
    requires
        f.wf(),
        y.wf(),
        f.right == y.base,
    ensures
        UnderMor::act(Cosp::rho(f), Cosp::comp(f, Cosp::id(f.left)), f, y).o(
            UnderMor::theta(Cosp::id(f.left), f, y).o(UnderMor::theta_id(f.push(y))),
        ) == UnderMor::id(f.push(y)),
{
    let e = Cosp::id(f.left);
    let fy = f.push(y);
    lemma_push_wf(f, y);
    lemma_co_theta_id(fy);
    lemma_co_theta(e, f, y);
    let q = Quad::of(e, f, y);
    lemma_quad_wf(q);
    lemma_quad(q);
    crate::theory::cospans::law_cospan_unitors(f);
    crate::theory::cospans::lemma_cocomp_wf(f, e);
    crate::theory::cospans::lemma_push_id_left(f.from_left);
    let fe = Cosp::comp(f, e);
    lemma_co_act(Cosp::rho(f), fe, f, y);
    let t0 = UnderMor::theta_id(fy);
    let t1 = UnderMor::theta(e, f, y);
    let t2 = UnderMor::act(Cosp::rho(f), fe, f, y);
    let w = t2.o(t1.o(t0));
    assert forall|c: int| 0 <= c < fy.total implies #[trigger] w.map.map[c] == c by {
        let i0 = t0.map.map[c];
        let i1 = t1.map.map[i0];
        assert(t1.o(t0).map.map[c] == i1);
        assert(w.map.map[c] == t2.map.map[i1]);
        let s = crate::theory::colimits::lemma_push_cases(y.leg, f.from_right, c);
        assert(i0 == q.inner().from_left.map[c]);
        if s.0 {
            assert(q.zn().from_left.map[s.1] == c);
            assert(i1 == q.outer().from_left.map[s.1]);
        } else {
            assert(q.zn().from_right.map[s.1] == c);
            let k = q.mn().from_right.map[s.1];
            assert(i1 == q.outer().from_right.map[k]);
            assert(fe.glue(y).from_right.map[k] == i1);
            assert(Cosp::rho(f).map[k] == s.1);
        }
    }
    assert(w =~= UnderMor::id(fy));
}

/// Reindexing along `id ∘ f` and dropping the identity is the identity.
pub proof fn law_co_coherence_left(f: Cosp, y: Under)
    requires
        f.wf(),
        y.wf(),
        f.right == y.base,
    ensures
        UnderMor::act(Cosp::lambda(f), Cosp::comp(Cosp::id(f.right), f), f, y).o(
            UnderMor::theta(f, Cosp::id(f.right), y).o(f.push_mor(UnderMor::theta_id(y))),
        ) == UnderMor::id(f.push(y)),
{
    let e = Cosp::id(f.right);
    let fy = f.push(y);
    lemma_push_wf(f, y);
    lemma_co_theta_id(y);
    lemma_push_mor(f, UnderMor::theta_id(y));
    lemma_co_theta(f, e, y);
    let q = Quad::of(f, e, y);
    lemma_quad_wf(q);
    lemma_quad(q);
    crate::theory::cospans::law_cospan_unitors(f);
    crate::theory::cospans::lemma_cocomp_wf(e, f);
    crate::theory::cospans::lemma_push_id_right(f.from_right);
    let ef = Cosp::comp(e, f);
    lemma_co_act(Cosp::lambda(f), ef, f, y);
    let t0 = f.push_mor(UnderMor::theta_id(y));
    let t1 = UnderMor::theta(f, e, y);
    let t2 = UnderMor::act(Cosp::lambda(f), ef, f, y);
    let w = t2.o(t1.o(t0));
    assert forall|c: int| 0 <= c < fy.total implies #[trigger] w.map.map[c] == c by {
        let i0 = t0.map.map[c];
        let i1 = t1.map.map[i0];
        assert(t1.o(t0).map.map[c] == i1);
        assert(w.map.map[c] == t2.map.map[i1]);
        let s = crate::theory::colimits::lemma_push_cases(y.leg, f.from_right, c);
        if s.0 {
            assert(i0 == q.inner().from_left.map[q.zn().from_left.map[s.1]]);
            assert(i1 == q.outer().from_left.map[s.1]);
        } else {
            assert(i0 == q.inner().from_right.map[s.1]);
            let k = q.mn().from_left.map[s.1];
            assert(i1 == q.outer().from_right.map[k]);
            assert(ef.glue(y).from_right.map[k] == i1);
            assert(Cosp::lambda(f).map[k] == s.1);
        }
    }
    assert(w =~= UnderMor::id(fy));
}

/// Reindexing along three cospans does not depend on the bracketing, up to the
/// action of the associator.
pub proof fn law_co_coherence_associator(f: Cosp, g: Cosp, h: Cosp, z: Under)
    requires
        crate::theory::cospans::cocomposable(h, g, f),
        z.wf(),
        h.right == z.base,
    ensures
        UnderMor::theta(Cosp::comp(g, f), h, z).o(UnderMor::theta(f, g, h.push(z)))
            == UnderMor::act(
            Cosp::alpha(h, g, f),
            Cosp::comp(Cosp::comp(h, g), f),
            Cosp::comp(h, Cosp::comp(g, f)),
            z,
        ).o(UnderMor::theta(f, Cosp::comp(h, g), z).o(f.push_mor(UnderMor::theta(g, h, z)))),
{
    let gf = Cosp::comp(g, f);
    let hg = Cosp::comp(h, g);
    let hz = h.push(z);
    crate::theory::cospans::lemma_cocomp_wf(g, f);
    crate::theory::cospans::lemma_cocomp_wf(h, g);
    lemma_push_wf(h, z);
    lemma_co_theta(f, g, hz);
    lemma_co_theta(gf, h, z);
    lemma_co_theta(g, h, z);
    lemma_push_mor(f, UnderMor::theta(g, h, z));
    lemma_co_theta(f, hg, z);
    let q1 = Quad::of(f, g, hz);
    let q2 = Quad::of(gf, h, z);
    let q3 = Quad::of(g, h, z);
    let q4 = Quad::of(f, hg, z);
    lemma_quad_wf(q1);
    lemma_quad_wf(q2);
    lemma_quad_wf(q3);
    lemma_quad_wf(q4);
    lemma_quad(q1);
    lemma_quad(q2);
    lemma_quad(q3);
    lemma_quad(q4);
    crate::theory::cospans::law_cospan_associator(h, g, f);
    crate::theory::cospans::lemma_cocomp_wf(hg, f);
    crate::theory::cospans::lemma_cocomp_wf(h, gf);
    let t = crate::theory::cospans::cospan_tri(h, g, f);
    crate::theory::cospans::lemma_cotri_wf(t);
    crate::theory::cospans::lemma_cotri(t);
    let ls = Cosp::comp(hg, f);
    let rs = Cosp::comp(h, gf);
    let alpha = Cosp::alpha(h, g, f);
    lemma_co_act(alpha, ls, rs, z);
    let a0 = UnderMor::theta(f, g, hz);
    let a1 = UnderMor::theta(gf, h, z);
    let b0 = f.push_mor(UnderMor::theta(g, h, z));
    let b1 = UnderMor::theta(f, hg, z);
    let b2 = UnderMor::act(alpha, ls, rs, z);
    let l = a1.o(a0);
    let r = b2.o(b1.o(b0));
    let x = f.push(g.push(hz));
    let th = UnderMor::theta(g, h, z);
    assert forall|c: int| 0 <= c < x.total implies #[trigger] l.map.map[c] == r.map.map[c] by {
        let i1 = a0.map.map[c];
        let i2 = a1.map.map[i1];
        assert(l.map.map[c] == i2);
        let j0 = b0.map.map[c];
        let j1 = b1.map.map[j0];
        let j2 = b2.map.map[j1];
        assert(b1.o(b0).map.map[c] == j1);
        assert(r.map.map[c] == j2);
        let s = crate::theory::colimits::lemma_push_cases(q1.into_zn(), q1.fr, c);
        if !s.0 {
            // A generator of the apex of f.
            let k = q1.mn().from_left.map[s.1];
            assert(i1 == q1.outer().from_right.map[k]);
            assert(i1 == q2.inner().from_right.map[k]);
            assert(i2 == q2.outer().from_right.map[q2.mn().from_left.map[k]]);
            assert(j0 == q4.inner().from_right.map[s.1]);
            let k4 = q4.mn().from_left.map[s.1];
            assert(j1 == q4.outer().from_right.map[k4]);
            assert(ls.glue(z).from_right.map[k4] == j1);
            assert(k4 == t.right_nested().from_left.map[s.1]);
            assert(alpha.map[k4] == t.left_nested().from_left.map[t.fg().from_left.map[s.1]]);
            assert(j2 == rs.glue(z).from_right.map[alpha.map[k4]]);
        } else {
            let k2 = th.map.map[s.1];
            assert(j0 == f.glue(hg.push(z)).from_left.map[k2]);
            let u = crate::theory::colimits::lemma_push_cases(q1.zl, q1.gr, s.1);
            if !u.0 {
                // A generator of the apex of g.
                assert(q1.zn().from_right.map[u.1] == s.1);
                let k = q1.mn().from_right.map[u.1];
                assert(i1 == q1.outer().from_right.map[k]);
                assert(i1 == q2.inner().from_right.map[k]);
                assert(i2 == q2.outer().from_right.map[q2.mn().from_left.map[k]]);
                assert(s.1 == q3.inner().from_right.map[u.1]);
                let k3 = q3.mn().from_left.map[u.1];
                assert(k2 == q3.outer().from_right.map[k3]);
                assert(k2 == q4.zn().from_right.map[k3]);
                assert(j0 == q4.inner().from_left.map[k2]);
                let k4 = q4.mn().from_right.map[k3];
                assert(j1 == q4.outer().from_right.map[k4]);
                assert(ls.glue(z).from_right.map[k4] == j1);
                assert(t.gh().from_left.map[u.1] == k3);
                assert(alpha.map[k4] == t.left_nested().from_left.map[t.fg().from_right.map[u.1]]);
                assert(j2 == rs.glue(z).from_right.map[alpha.map[k4]]);
            } else {
                assert(q1.zn().from_left.map[u.1] == s.1);
                assert(i1 == q1.outer().from_left.map[u.1]);
                assert(i1 == q2.inner().from_left.map[u.1]);
                assert(s.1 == q3.inner().from_left.map[u.1]);
                let v = crate::theory::colimits::lemma_push_cases(q2.zl, q2.gr, u.1);
                if !v.0 {
                    // A generator of the apex of h.
                    assert(q2.zn().from_right.map[v.1] == u.1);
                    assert(i2 == q2.outer().from_right.map[q2.mn().from_right.map[v.1]]);
                    assert(q3.zn().from_right.map[v.1] == u.1);
                    let k3 = q3.mn().from_right.map[v.1];
                    assert(k2 == q3.outer().from_right.map[k3]);
                    assert(k2 == q4.zn().from_right.map[k3]);
                    assert(j0 == q4.inner().from_left.map[k2]);
                    let k4 = q4.mn().from_right.map[k3];
                    assert(j1 == q4.outer().from_right.map[k4]);
                    assert(ls.glue(z).from_right.map[k4] == j1);
                    assert(t.gh().from_right.map[v.1] == k3);
                    assert(alpha.map[k4] == t.left_nested().from_right.map[v.1]);
                    assert(j2 == rs.glue(z).from_right.map[alpha.map[k4]]);
                } else {
                    // A generator of the total of z.
                    assert(q2.zn().from_left.map[v.1] == u.1);
                    assert(i2 == q2.outer().from_left.map[v.1]);
                    assert(q3.zn().from_left.map[v.1] == u.1);
                    assert(k2 == q3.outer().from_left.map[v.1]);
                    assert(k2 == q4.zn().from_left.map[v.1]);
                    assert(j0 == q4.inner().from_left.map[k2]);
                    assert(j1 == q4.outer().from_left.map[v.1]);
                    assert(ls.glue(z).from_left.map[v.1] == j1);
                    assert(j2 == rs.glue(z).from_left.map[v.1]);
                }
            }
        }
    }
    assert(l =~= r);
}

} // verus!
