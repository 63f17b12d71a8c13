//! Dependent prisms: witnesses over cospans, and their normal form.
use vstd::prelude::*;
use crate::theory::fun::Fun;
use crate::theory::cospans::Cosp;
use crate::theory::coslices::Under;
use crate::theory::coslices::UnderMor;
use crate::theory::coslices::Quad;

verus! {

/// A span `X ← A → X'`: two coslices under one base.
#[verifier::ext_equal]
pub struct CoFam {
    pub forward: Under,
    pub backward: Under,
}

impl CoFam {
    pub open spec fn wf(self) -> bool {
        self.forward.wf() && self.backward.wf() && self.forward.base == self.backward.base
    }
}

/// A prism with an explicit residual cospan.
#[verifier::ext_equal]
pub struct PWit {
    pub dom: CoFam,
    pub cod: CoFam,
    pub cospan: Cosp,
    /// `X → f* Y`.
    pub fwd: UnderMor,
    /// `f* Y' → X'`.
    pub bwd: UnderMor,
}

impl PWit {
    pub open spec fn wf(self) -> bool {
        &&& self.dom.wf()
        &&& self.cod.wf()
        &&& self.cospan.wf()
        &&& self.cospan.left == self.dom.forward.base
        &&& self.cospan.right == self.cod.forward.base
        &&& self.fwd.hom(self.dom.forward, self.cospan.push(self.cod.forward))
        &&& self.bwd.hom(self.cospan.push(self.cod.backward), self.dom.backward)
    }

    pub open spec fn id(x: CoFam) -> PWit {
        PWit {
            dom: x,
            cod: x,
            cospan: Cosp::id(x.forward.base),
            fwd: UnderMor::theta_id(x.forward),
            bwd: UnderMor::theta_id_inv(x.backward),
        }
    }

    /// `outer ∘ inner`, with the composite residual.
    pub open spec fn comp(outer: PWit, inner: PWit) -> PWit {
        let f = inner.cospan;
        let g = outer.cospan;
        PWit {
            dom: inner.dom,
            cod: outer.cod,
            cospan: Cosp::comp(g, f),
            fwd: UnderMor::theta(f, g, outer.cod.forward).o(f.push_mor(outer.fwd).o(inner.fwd)),
            bwd: inner.bwd.o(f.push_mor(outer.bwd).o(UnderMor::theta_inv(f, g, outer.cod.backward))),
        }
    }

    /// The 2-cell `m` takes `a` to `b`.
    pub open spec fn related(m: Fun, a: PWit, b: PWit) -> bool {
        &&& a.dom == b.dom
        &&& a.cod == b.cod
        &&& crate::theory::coslices::is_cocell(m, a.cospan, b.cospan)
        &&& UnderMor::act(m, a.cospan, b.cospan, a.cod.forward).o(a.fwd) == b.fwd
        &&& b.bwd.o(UnderMor::act(m, a.cospan, b.cospan, a.cod.backward)) == a.bwd
    }

    /// `Y' → X'`.
    pub open spec fn back(self) -> Fun {
        self.bwd.map.o(self.cospan.glue(self.cod.backward).from_left)
    }

    /// The apex of the residual, in `X'`.
    pub open spec fn collapse(self) -> Fun {
        self.bwd.map.o(self.cospan.glue(self.cod.backward).from_right)
    }

    /// The prism to which the witness reduces.
    pub open spec fn normal(self) -> Prism {
        let c = prism_cospan(self.dom, self.cod, self.back());
        Prism {
            dom: self.dom,
            cod: self.cod,
            back: self.back(),
            fwd: UnderMor::act(self.collapse(), self.cospan, c, self.cod.forward).o(self.fwd),
        }
    }
}

/// A prism in normal form: `back: Y' → X'` and `fwd: X → X' ⊔_B Y` under `A`.
#[verifier::ext_equal]
pub struct Prism {
    pub dom: CoFam,
    pub cod: CoFam,
    pub back: Fun,
    pub fwd: UnderMor,
}

/// The cospan `A → X' ← B` of a back map.
pub open spec fn prism_cospan(dom: CoFam, cod: CoFam, back: Fun) -> Cosp {
    Cosp {
        left: dom.forward.base,
        right: cod.forward.base,
        apex: dom.backward.total,
        from_left: dom.backward.leg,
        from_right: back.o(cod.backward.leg),
    }
}

impl Prism {
    pub open spec fn cospan(self) -> Cosp {
        prism_cospan(self.dom, self.cod, self.back)
    }

    pub open spec fn wf(self) -> bool {
        &&& self.dom.wf()
        &&& self.cod.wf()
        &&& self.back.hom(self.cod.backward.total, self.dom.backward.total)
        &&& self.fwd.hom(self.dom.forward, self.cospan().push(self.cod.forward))
    }

    pub open spec fn hom(self, x: CoFam, y: CoFam) -> bool {
        self.wf() && self.dom == x && self.cod == y
    }

    pub open spec fn id(x: CoFam) -> Prism {
        let c = prism_cospan(x, x, Fun::id(x.backward.total));
        Prism {
            dom: x,
            cod: x,
            back: Fun::id(x.backward.total),
            fwd: UnderMor { dom: x.forward, cod: c.push(x.forward), map: c.glue(x.forward).from_left },
        }
    }

    /// Where the outer prism's matches go: `Z` stays, and a failure in `Y'`
    /// is built back into `X'`.
    pub open spec fn rebuild(outer: Prism, inner: Prism) -> Fun {
        let t = prism_cospan(inner.dom, outer.cod, inner.back.o(outer.back)).glue(outer.cod.forward);
        outer.cospan().glue(outer.cod.forward).med(t.from_left, t.from_right.o(inner.back))
    }

    /// Where the inner prism's matches go: `Y` is matched again, and a failure
    /// in `X'` stays.
    pub open spec fn rematch(outer: Prism, inner: Prism) -> Fun {
        let t = prism_cospan(inner.dom, outer.cod, inner.back.o(outer.back)).glue(outer.cod.forward);
        inner.cospan().glue(inner.cod.forward).med(Prism::rebuild(outer, inner).o(outer.fwd.map), t.from_right)
    }

    /// `outer ∘ inner`.
    pub open spec fn comp(outer: Prism, inner: Prism) -> Prism {
        let back = inner.back.o(outer.back);
        let c = prism_cospan(inner.dom, outer.cod, back);
        Prism {
            dom: inner.dom,
            cod: outer.cod,
            back,
            fwd: UnderMor {
                dom: inner.dom.forward,
                cod: c.push(outer.cod.forward),
                map: Prism::rematch(outer, inner).o(inner.fwd.map),
            },
        }
    }

    /// The witness whose residual is `X'`.
    pub open spec fn embed(self) -> PWit {
        let c = self.cospan();
        PWit {
            dom: self.dom,
            cod: self.cod,
            cospan: c,
            fwd: self.fwd,
            bwd: UnderMor {
                dom: c.push(self.cod.backward),
                cod: self.dom.backward,
                map: c.glue(self.cod.backward).med(self.back, Fun::id(self.dom.backward.total)),
            },
        }
    }
}

/// A match of a prism comes from `Y` or from `X'`.
pub proof fn lemma_match_cases(p: Prism, x: int) -> (r: (bool, int))
    requires
        p.wf(),
        0 <= x < p.dom.forward.total,
    ensures
        r.0 ==> 0 <= r.1 < p.cod.forward.total && p.fwd.map.map[x] == p.cospan().glue(p.cod.forward).from_left.map[r.1],
        !r.0 ==> 0 <= r.1 < p.dom.backward.total && p.fwd.map.map[x] == p.cospan().glue(p.cod.forward).from_right.map[r.1],
{
    let c = p.cospan();
    crate::theory::coslices::lemma_push_wf(c, p.cod.forward);
    crate::theory::colimits::lemma_push_cases(p.cod.forward.leg, c.from_right, p.fwd.map.map[x])
}

pub proof fn lemma_prism(p: Prism)
    requires
        p.wf(),
    ensures
        p.cospan().wf(),
        p.cospan().glue(p.cod.forward).from_left.hom(p.cod.forward.total, p.fwd.map.cod),
        p.cospan().glue(p.cod.forward).from_right.hom(p.dom.backward.total, p.fwd.map.cod),
        p.cospan().glue(p.cod.forward).apex == p.fwd.map.cod,
        forall|b: int| 0 <= b < p.cod.forward.base ==> p.cospan().glue(p.cod.forward).from_left.map[
            #[trigger] p.cod.forward.leg.map[b]] == p.cospan().glue(p.cod.forward).from_right.map[
            p.back.map[p.cod.backward.leg.map[b]]],
        forall|a: int| 0 <= a < p.dom.forward.base ==> p.fwd.map.map[#[trigger] p.dom.forward.leg.map[a]]
            == p.cospan().glue(p.cod.forward).from_right.map[p.dom.backward.leg.map[a]],
{
    let c = p.cospan();
    crate::theory::coslices::lemma_push_wf(c, p.cod.forward);
    crate::theory::coslices::lemma_cotriangle(p.fwd);
    assert forall|b: int| 0 <= b < p.cod.forward.base implies c.glue(p.cod.forward).from_left.map[
        #[trigger] p.cod.forward.leg.map[b]] == c.glue(p.cod.forward).from_right.map[p.back.map[p.cod.backward.leg.map[b]]] by {
        assert(c.from_right.map[b] == p.back.map[p.cod.backward.leg.map[b]]);
    }
    assert forall|a: int| 0 <= a < p.dom.forward.base implies p.fwd.map.map[#[trigger] p.dom.forward.leg.map[a]]
        == c.glue(p.cod.forward).from_right.map[p.dom.backward.leg.map[a]] by {
        assert(c.push(p.cod.forward).leg.map[a] == c.glue(p.cod.forward).from_right.map[c.from_left.map[a]]);
    }
}

pub proof fn lemma_prism_id(x: CoFam)
    requires
        x.wf(),
    ensures
        Prism::id(x).hom(x, x),
{
    let p = Prism::id(x);
    let c = p.cospan();
    assert(c.from_right =~= x.backward.leg);
    crate::theory::coslices::lemma_push_wf(c, x.forward);
    assert forall|a: int| 0 <= a < x.forward.base implies p.fwd.map.o(p.fwd.dom.leg).map[a] == p.fwd.cod.leg.map[a] by {
        assert(c.glue(x.forward).from_left.map[x.forward.leg.map[a]] == c.glue(x.forward).from_right.map[c.from_right.map[a]]);
    }
    assert(p.fwd.map.o(p.fwd.dom.leg) =~= p.fwd.cod.leg);
}

/// The composite of prisms, on generators.
pub proof fn lemma_prism_comp(outer: Prism, inner: Prism)
    requires
        outer.wf(),
        inner.wf(),
        inner.cod == outer.dom,
    ensures
        Prism::comp(outer, inner).hom(inner.dom, outer.cod),
        ({
            let t = Prism::comp(outer, inner).cospan().glue(outer.cod.forward);
            let h = Prism::rebuild(outer, inner);
            let g = Prism::rematch(outer, inner);
            let o = outer.cospan().glue(outer.cod.forward);
            let i = inner.cospan().glue(inner.cod.forward);
            &&& h.hom(o.apex, t.apex)
            &&& g.hom(i.apex, t.apex)
            &&& t.from_left.hom(outer.cod.forward.total, t.apex)
            &&& t.from_right.hom(inner.dom.backward.total, t.apex)
            &&& forall|z: int| 0 <= z < outer.cod.forward.total ==> h.map[#[trigger] o.from_left.map[z]] == t.from_left.map[z]
            &&& forall|y: int| 0 <= y < outer.dom.backward.total ==> h.map[#[trigger] o.from_right.map[y]]
                == t.from_right.map[inner.back.map[y]]
            &&& forall|y: int| 0 <= y < inner.cod.forward.total ==> g.map[#[trigger] i.from_left.map[y]]
                == h.map[outer.fwd.map.map[y]]
            &&& forall|x: int| 0 <= x < inner.dom.backward.total ==> g.map[#[trigger] i.from_right.map[x]] == t.from_right.map[x]
        }),
        forall|x: int| 0 <= x < inner.dom.forward.total ==> #[trigger] Prism::comp(outer, inner).fwd.map.map[x]
            == Prism::rematch(outer, inner).map[inner.fwd.map.map[x]],
{
    lemma_prism(outer);
    lemma_prism(inner);
    let p = Prism::comp(outer, inner);
    let c = p.cospan();
    let zf = outer.cod.forward;
    crate::theory::coslices::lemma_push_wf(c, zf);
    let t = c.glue(zf);
    let oc = outer.cospan();
    let ic = inner.cospan();
    let o = oc.glue(zf);
    let i = ic.glue(inner.cod.forward);
    let r = t.from_right.o(inner.back);
    assert forall|b: int| 0 <= b < zf.leg.dom implies t.from_left.map[#[trigger] zf.leg.map[b]] == r.map[oc.from_right.map[b]] by {
        assert(oc.from_right.map[b] == outer.back.map[outer.cod.backward.leg.map[b]]);
        assert(c.from_right.map[b] == p.back.map[outer.cod.backward.leg.map[b]]);
        assert(p.back.map[outer.cod.backward.leg.map[b]] == inner.back.map[outer.back.map[outer.cod.backward.leg.map[b]]]);
    }
    crate::theory::colimits::lemma_push_med(zf.leg, oc.from_right, t.from_left, r);
    let h = Prism::rebuild(outer, inner);
    assert forall|y: int| 0 <= y < outer.dom.backward.total implies h.map[#[trigger] o.from_right.map[y]]
        == t.from_right.map[inner.back.map[y]] by {
        assert(r.map[y] == t.from_right.map[inner.back.map[y]]);
    }
    let yf = inner.cod.forward;
    let q = h.o(outer.fwd.map);
    assert forall|b: int| 0 <= b < yf.leg.dom implies q.map[#[trigger] yf.leg.map[b]] == t.from_right.map[ic.from_right.map[b]] by {
        assert(ic.from_right.map[b] == inner.back.map[inner.cod.backward.leg.map[b]]);
        assert(outer.fwd.map.map[outer.dom.forward.leg.map[b]] == o.from_right.map[outer.dom.backward.leg.map[b]]);
    }
    crate::theory::colimits::lemma_push_med(yf.leg, ic.from_right, q, t.from_right);
    let g = Prism::rematch(outer, inner);
    assert forall|y: int| 0 <= y < yf.total implies g.map[#[trigger] i.from_left.map[y]] == h.map[outer.fwd.map.map[y]] by {
        assert(q.map[y] == h.map[outer.fwd.map.map[y]]);
    }
    assert forall|a: int| 0 <= a < inner.dom.forward.base implies p.fwd.map.o(p.fwd.dom.leg).map[a] == p.fwd.cod.leg.map[a] by {
        assert(inner.fwd.map.map[inner.dom.forward.leg.map[a]] == i.from_right.map[inner.dom.backward.leg.map[a]]);
        assert(c.push(zf).leg.map[a] == t.from_right.map[c.from_left.map[a]]);
    }
    assert(p.fwd.map.o(p.fwd.dom.leg) =~= p.fwd.cod.leg);
}

/// Identity prisms are neutral.
pub proof fn law_prism_units(p: Prism)
    requires
        p.wf(),
    ensures
        Prism::comp(p, Prism::id(p.dom)) == p,
        Prism::comp(Prism::id(p.cod), p) == p,
{
    lemma_prism(p);
    lemma_prism_id(p.dom);
    lemma_prism_id(p.cod);
    crate::theory::fun::law_identity(p.back);
    let a = Prism::comp(p, Prism::id(p.dom));
    lemma_prism_comp(p, Prism::id(p.dom));
    assert(a.back == p.back);
    let ida = Prism::id(p.dom);
    assert forall|x: int| 0 <= x < p.dom.forward.total implies a.fwd.map.map[x] == p.fwd.map.map[x] by {
        let i = ida.cospan().glue(p.dom.forward);
        assert(ida.fwd.map.map[x] == i.from_left.map[x]);
        let r = lemma_match_cases(p, x);
        if !r.0 {
            assert(Fun::id(p.dom.backward.total).map[r.1] == r.1);
        }
    }
    assert(a.fwd.map =~= p.fwd.map);
    let idb = Prism::id(p.cod);
    let b = Prism::comp(idb, p);
    lemma_prism_comp(idb, p);
    assert(b.back == p.back);
    assert forall|x: int| 0 <= x < p.dom.forward.total implies b.fwd.map.map[x] == p.fwd.map.map[x] by {
        let r = lemma_match_cases(p, x);
        if r.0 {
            assert(idb.fwd.map.map[r.1] == idb.cospan().glue(p.cod.forward).from_left.map[r.1]);
        }
    }
    assert(b.fwd.map =~= p.fwd.map);
}

/// Composition of prisms is associative.
pub proof fn law_prism_associative(h: Prism, g: Prism, f: Prism)
    requires
        h.wf(),
        g.wf(),
        f.wf(),
        f.cod == g.dom,
        g.cod == h.dom,
    ensures
        Prism::comp(h, Prism::comp(g, f)) == Prism::comp(Prism::comp(h, g), f),
{
    let gf = Prism::comp(g, f);
    let hg = Prism::comp(h, g);
    lemma_prism_comp(g, f);
    lemma_prism_comp(h, g);
    lemma_prism_comp(h, gf);
    lemma_prism_comp(hg, f);
    lemma_prism(f);
    lemma_prism(g);
    lemma_prism(h);
    crate::theory::fun::law_associative(f.back, g.back, h.back);
    let a = Prism::comp(h, gf);
    let b = Prism::comp(hg, f);
    assert(a.back == b.back);
    let t = a.cospan().glue(h.cod.forward);
    let tgf = gf.cospan().glue(g.cod.forward);
    let thg = hg.cospan().glue(h.cod.forward);
    assert forall|x: int| 0 <= x < f.dom.forward.total implies a.fwd.map.map[x] == b.fwd.map.map[x] by {
        assert(a.fwd.map.map[x] == Prism::rematch(h, gf).map[gf.fwd.map.map[x]]);
        assert(gf.fwd.map.map[x] == Prism::rematch(g, f).map[f.fwd.map.map[x]]);
        assert(b.fwd.map.map[x] == Prism::rematch(hg, f).map[f.fwd.map.map[x]]);
        let r = lemma_match_cases(f, x);
        if !r.0 {
            assert(gf.fwd.map.map[x] == tgf.from_right.map[r.1]);
            assert(a.fwd.map.map[x] == t.from_right.map[r.1]);
            assert(b.fwd.map.map[x] == t.from_right.map[r.1]);
        } else {
            let y = r.1;
            assert(gf.fwd.map.map[x] == Prism::rebuild(g, f).map[g.fwd.map.map[y]]);
            assert(b.fwd.map.map[x] == Prism::rebuild(hg, f).map[hg.fwd.map.map[y]]);
            assert(hg.fwd.map.map[y] == Prism::rematch(h, g).map[g.fwd.map.map[y]]);
            let s = lemma_match_cases(g, y);
            if !s.0 {
                assert(gf.fwd.map.map[x] == tgf.from_right.map[f.back.map[s.1]]);
                assert(hg.fwd.map.map[y] == thg.from_right.map[s.1]);
            } else {
                let z = s.1;
                assert(gf.fwd.map.map[x] == tgf.from_left.map[z]);
                assert(a.fwd.map.map[x] == Prism::rebuild(h, gf).map[h.fwd.map.map[z]]);
                assert(hg.fwd.map.map[y] == Prism::rebuild(h, g).map[h.fwd.map.map[z]]);
                let u = lemma_match_cases(h, z);
                if u.0 {
                    assert(hg.fwd.map.map[y] == thg.from_left.map[u.1]);
                } else {
                    assert(hg.fwd.map.map[y] == thg.from_right.map[g.back.map[u.1]]);
                    assert(gf.back.map[u.1] == f.back.map[g.back.map[u.1]]);
                }
            }
        }
    }
    assert(a.fwd.map =~= b.fwd.map);
}

// ----- witnesses -----

/// The back map of a witness and the collapse of its residual.
pub proof fn lemma_pwit(w: PWit)
    requires
        w.wf(),
    ensures
        w.back().hom(w.cod.backward.total, w.dom.backward.total),
        w.collapse().hom(w.cospan.apex, w.dom.backward.total),
        prism_cospan(w.dom, w.cod, w.back()).wf(),
        crate::theory::coslices::is_cocell(w.collapse(), w.cospan, prism_cospan(w.dom, w.cod, w.back())),
        w.normal().wf(),
        forall|x: int| 0 <= x < w.dom.forward.total ==> #[trigger] w.normal().fwd.map.map[x] == UnderMor::act(
            w.collapse(),
            w.cospan,
            w.normal().cospan(),
            w.cod.forward,
        ).map.map[w.fwd.map.map[x]],
{
    let f = w.cospan;
    let yb = w.cod.backward;
    crate::theory::coslices::lemma_push_wf(f, w.cod.forward);
    crate::theory::coslices::lemma_push_wf(f, yb);
    crate::theory::coslices::lemma_cotriangle(w.bwd);
    let c = prism_cospan(w.dom, w.cod, w.back());
    let m = w.collapse();
    assert forall|a: int| 0 <= a < f.left implies m.o(f.from_left).map[a] == c.from_left.map[a] by {
        assert(m.map[f.from_left.map[a]] == w.bwd.map.map[f.glue(yb).from_right.map[f.from_left.map[a]]]);
        assert(f.push(yb).leg.map[a] == f.glue(yb).from_right.map[f.from_left.map[a]]);
    }
    assert(m.o(f.from_left) =~= c.from_left);
    assert forall|b: int| 0 <= b < f.right implies m.o(f.from_right).map[b] == c.from_right.map[b] by {
        assert(m.map[f.from_right.map[b]] == w.bwd.map.map[f.glue(yb).from_right.map[f.from_right.map[b]]]);
        assert(c.from_right.map[b] == w.back().map[yb.leg.map[b]]);
        assert(w.back().map[yb.leg.map[b]] == w.bwd.map.map[f.glue(yb).from_left.map[yb.leg.map[b]]]);
    }
    assert(m.o(f.from_right) =~= c.from_right);
    crate::theory::coslices::lemma_co_act(m, f, c, w.cod.forward);
    crate::theory::coslices::lemma_under_o(UnderMor::act(m, f, c, w.cod.forward), w.fwd);
}

pub proof fn lemma_pwit_id(x: CoFam)
    requires
        x.wf(),
    ensures
        PWit::id(x).wf(),
{
    crate::theory::coslices::lemma_co_theta_id(x.forward);
    crate::theory::coslices::lemma_co_theta_id(x.backward);
}

pub proof fn lemma_pwit_comp(outer: PWit, inner: PWit)
    requires
        outer.wf(),
        inner.wf(),
        inner.cod == outer.dom,
    ensures
        PWit::comp(outer, inner).wf(),
{
    let f = inner.cospan;
    let g = outer.cospan;
    crate::theory::coslices::lemma_push_mor(f, outer.fwd);
    crate::theory::coslices::lemma_push_mor(f, outer.bwd);
    crate::theory::coslices::lemma_co_theta(f, g, outer.cod.forward);
    crate::theory::coslices::lemma_co_theta(f, g, outer.cod.backward);
    crate::theory::coslices::lemma_under_o(f.push_mor(outer.fwd), inner.fwd);
    crate::theory::coslices::lemma_under_o(
        UnderMor::theta(f, g, outer.cod.forward),
        f.push_mor(outer.fwd).o(inner.fwd),
    );
    crate::theory::coslices::lemma_under_o(f.push_mor(outer.bwd), UnderMor::theta_inv(f, g, outer.cod.backward));
    crate::theory::coslices::lemma_under_o(
        inner.bwd,
        f.push_mor(outer.bwd).o(UnderMor::theta_inv(f, g, outer.cod.backward)),
    );
}

pub proof fn lemma_prism_embed(p: Prism)
    requires
        p.wf(),
    ensures
        p.embed().wf(),
        p.embed().back() == p.back,
        p.embed().collapse() == Fun::id(p.dom.backward.total),
        forall|i: int| 0 <= i < p.cod.backward.total ==> p.embed().bwd.map.map[
            #[trigger] p.cospan().glue(p.cod.backward).from_left.map[i]] == p.back.map[i],
        forall|i: int| 0 <= i < p.dom.backward.total ==> p.embed().bwd.map.map[
            #[trigger] p.cospan().glue(p.cod.backward).from_right.map[i]] == i,
        crate::theory::colimits::Push::quotient(p.cod.backward.leg, p.cospan().from_right).kernel_of(
            crate::theory::colimits::Sum::copair(p.back, Fun::id(p.dom.backward.total)),
        ),
{
    lemma_prism(p);
    let c = p.cospan();
    let yb = p.cod.backward;
    let n = p.dom.backward.total;
    crate::theory::coslices::lemma_push_wf(c, yb);
    assert forall|b: int| 0 <= b < yb.leg.dom implies p.back.map[#[trigger] yb.leg.map[b]] == Fun::id(n).map[c.from_right.map[b]] by {
        assert(c.from_right.map[b] == p.back.map[yb.leg.map[b]]);
    }
    crate::theory::colimits::lemma_push_med(yb.leg, c.from_right, p.back, Fun::id(n));
    let w = p.embed();
    assert forall|i: int| 0 <= i < n implies w.bwd.map.map[#[trigger] c.glue(yb).from_right.map[i]] == i by {
        assert(Fun::id(n).map[i] == i);
    }
    assert forall|a: int| 0 <= a < p.dom.forward.base implies w.bwd.map.o(w.bwd.dom.leg).map[a] == w.bwd.cod.leg.map[a] by {
        assert(c.push(yb).leg.map[a] == c.glue(yb).from_right.map[c.from_left.map[a]]);
    }
    assert(w.bwd.map.o(w.bwd.dom.leg) =~= w.bwd.cod.leg);
    assert(w.back() =~= p.back);
    assert(w.collapse() =~= Fun::id(n));
}

/// Embedding a prism and normalising the witness gives the prism back.
pub proof fn law_prism_normalize_embed(p: Prism)
    requires
        p.wf(),
    ensures
        p.embed().wf(),
        p.embed().normal() == p,
{
    lemma_prism_embed(p);
    lemma_prism(p);
    let w = p.embed();
    let n = p.dom.backward.total;
    lemma_pwit(w);
    crate::theory::coslices::lemma_under_id(p.cod.forward);
    crate::theory::coslices::law_co_act_functorial(
        Fun::id(n),
        Fun::id(n),
        p.cospan(),
        p.cospan(),
        p.cospan(),
        UnderMor::id(p.cod.forward),
    );
    crate::theory::fun::law_identity(p.fwd.map);
    assert(w.normal().fwd =~= p.fwd);
}

/// A 2-cell of residuals does not change the normal form.
pub proof fn law_prism_related_normal(m: Fun, a: PWit, b: PWit)
    requires
        a.wf(),
        b.wf(),
        PWit::related(m, a, b),
    ensures
        a.normal() == b.normal(),
{
    lemma_pwit(a);
    lemma_pwit(b);
    let yb = a.cod.backward;
    let yf = a.cod.forward;
    crate::theory::coslices::lemma_co_act(m, a.cospan, b.cospan, yb);
    crate::theory::coslices::lemma_push_wf(a.cospan, yb);
    crate::theory::coslices::lemma_push_wf(b.cospan, yb);
    let r = UnderMor::act(m, a.cospan, b.cospan, yb);
    assert forall|i: int| 0 <= i < yb.total implies a.back().map[i] == b.back().map[i] by {
        let c = a.cospan.glue(yb).from_left.map[i];
        assert(b.bwd.o(r).map.map[c] == b.bwd.map.map[r.map.map[c]]);
    }
    assert(a.back() =~= b.back());
    assert forall|i: int| 0 <= i < a.cospan.apex implies a.collapse().map[i] == b.collapse().o(m).map[i] by {
        let c = a.cospan.glue(yb).from_right.map[i];
        assert(b.bwd.o(r).map.map[c] == b.bwd.map.map[r.map.map[c]]);
    }
    assert(a.collapse() =~= b.collapse().o(m));
    let t = a.normal().cospan();
    crate::theory::coslices::lemma_under_id(yf);
    crate::theory::coslices::law_co_act_functorial(m, b.collapse(), a.cospan, b.cospan, t, UnderMor::id(yf));
    let x = UnderMor::act(m, a.cospan, b.cospan, yf);
    let y = UnderMor::act(b.collapse(), b.cospan, t, yf);
    crate::theory::coslices::lemma_co_act(m, a.cospan, b.cospan, yf);
    crate::theory::coslices::lemma_co_act(b.collapse(), b.cospan, t, yf);
    crate::theory::fun::law_associative(y.map, x.map, a.fwd.map);
}

/// Each witness is related to the embedding of its normal form, by the
/// collapse of its residual.
pub proof fn law_prism_embed_normalize(w: PWit)
    requires
        w.wf(),
    ensures
        PWit::related(w.collapse(), w, w.normal().embed()),
{
    lemma_pwit(w);
    let p = w.normal();
    lemma_prism_embed(p);
    lemma_prism(p);
    let e = p.embed();
    let yb = w.cod.backward;
    let m = w.collapse();
    crate::theory::coslices::lemma_co_act(m, w.cospan, e.cospan, yb);
    crate::theory::coslices::lemma_push_wf(w.cospan, yb);
    let r = UnderMor::act(m, w.cospan, e.cospan, yb);
    assert forall|c: int| 0 <= c < w.bwd.map.dom implies e.bwd.o(r).map.map[c] == w.bwd.map.map[c] by {
        assert(e.bwd.o(r).map.map[c] == e.bwd.map.map[r.map.map[c]]);
        let s = crate::theory::colimits::lemma_push_cases(yb.leg, w.cospan.from_right, c);
        if s.0 {
            assert(w.back().map[s.1] == w.bwd.map.map[c]);
        } else {
            assert(m.map[s.1] == w.bwd.map.map[c]);
        }
    }
    assert(e.bwd.o(r) =~= w.bwd);
}

/// The normal form of the identity witness is the identity prism.
pub proof fn law_prism_normalize_identity(x: CoFam)
    requires
        x.wf(),
    ensures
        PWit::id(x).wf(),
        PWit::id(x).normal() == Prism::id(x),
{
    lemma_pwit_id(x);
    let w = PWit::id(x);
    lemma_pwit(w);
    lemma_prism_id(x);
    crate::theory::coslices::lemma_co_theta_id(x.forward);
    crate::theory::coslices::lemma_co_theta_id(x.backward);
    let p = w.normal();
    let q = Prism::id(x);
    assert(p.back =~= q.back);
    let m = w.collapse();
    crate::theory::coslices::lemma_co_act(m, w.cospan, p.cospan(), x.forward);
    crate::theory::coslices::lemma_push_wf(w.cospan, x.forward);
    assert forall|i: int| 0 <= i < x.forward.total implies p.fwd.map.map[i] == q.fwd.map.map[i] by {
        assert(w.fwd.map.map[i] == w.cospan.glue(x.forward).from_left.map[i]);
    }
    assert(p.fwd.map =~= q.fwd.map);
}

/// Normalising a composite of witnesses is composing the normal forms.
pub proof fn law_prism_normalize_compose(outer: PWit, inner: PWit)
    requires
        outer.wf(),
        inner.wf(),
        inner.cod == outer.dom,
    ensures
        PWit::comp(outer, inner).wf(),
        PWit::comp(outer, inner).normal() == Prism::comp(outer.normal(), inner.normal()),
{
    let f = inner.cospan;
    let g = outer.cospan;
    let gf = Cosp::comp(g, f);
    let z = outer.cod.forward;
    let zb = outer.cod.backward;
    let y = inner.cod.forward;
    let yb = inner.cod.backward;
    let w = PWit::comp(outer, inner);
    lemma_pwit_comp(outer, inner);
    lemma_pwit(w);
    lemma_pwit(outer);
    lemma_pwit(inner);
    let no = outer.normal();
    let ni = inner.normal();
    lemma_prism_comp(no, ni);
    let c = Prism::comp(no, ni);
    let n = w.normal();
    crate::theory::coslices::lemma_push_wf(f, y);
    crate::theory::coslices::lemma_push_wf(f, yb);
    crate::theory::coslices::lemma_push_wf(g, z);
    crate::theory::coslices::lemma_push_wf(g, zb);
    crate::theory::coslices::lemma_push_mor(f, outer.fwd);
    crate::theory::coslices::lemma_push_mor(f, outer.bwd);
    crate::theory::coslices::lemma_co_theta(f, g, z);
    crate::theory::coslices::lemma_co_theta(f, g, zb);
    let qf = Quad::of(f, g, z);
    let qb = Quad::of(f, g, zb);
    crate::theory::coslices::lemma_quad_wf(qf);
    crate::theory::coslices::lemma_quad(qf);
    crate::theory::coslices::lemma_quad_wf(qb);
    crate::theory::coslices::lemma_quad(qb);
    let ti = UnderMor::theta_inv(f, g, zb);
    let fb = f.push_mor(outer.bwd);
    assert forall|k: int| 0 <= k < ti.map.dom implies #[trigger] w.bwd.map.map[k]
        == inner.bwd.map.map[fb.map.map[ti.map.map[k]]] by {
        assert(fb.o(ti).map.map[k] == fb.map.map[ti.map.map[k]]);
    }
    // The back map and the collapse of the composite.
    assert forall|i: int| 0 <= i < zb.total implies w.back().map[i] == ni.back.o(no.back).map[i] by {
        let k = qb.outer().from_left.map[i];
        assert(w.back().map[i] == w.bwd.map.map[k]);
        assert(ti.map.map[k] == qb.inner().from_left.map[qb.zn().from_left.map[i]]);
        assert(no.back.map[i] == outer.bwd.map.map[qb.zn().from_left.map[i]]);
        assert(fb.map.map[ti.map.map[k]] == f.glue(yb).from_left.map[no.back.map[i]]);
        assert(ni.back.map[no.back.map[i]] == inner.bwd.map.map[f.glue(yb).from_left.map[no.back.map[i]]]);
    }
    assert(w.back() =~= ni.back.o(no.back));
    let m = w.collapse();
    assert forall|i: int| 0 <= i < f.apex implies m.map[#[trigger] qf.mn().from_left.map[i]] == inner.collapse().map[i] by {
        let e = qf.mn().from_left.map[i];
        let k = qb.outer().from_right.map[e];
        assert(m.map[e] == w.bwd.map.map[k]);
        assert(qb.mn().from_left.map[i] == e);
        assert(ti.map.map[k] == qb.inner().from_right.map[i]);
        assert(fb.map.map[ti.map.map[k]] == f.glue(yb).from_right.map[i]);
    }
    assert forall|i: int| 0 <= i < g.apex implies m.map[#[trigger] qf.mn().from_right.map[i]]
        == ni.back.map[outer.collapse().map[i]] by {
        let e = qf.mn().from_right.map[i];
        let k = qb.outer().from_right.map[e];
        assert(m.map[e] == w.bwd.map.map[k]);
        assert(qb.mn().from_right.map[i] == e);
        assert(ti.map.map[k] == qb.inner().from_left.map[qb.zn().from_right.map[i]]);
        let v = outer.collapse().map[i];
        assert(v == outer.bwd.map.map[qb.zn().from_right.map[i]]);
        assert(fb.map.map[ti.map.map[k]] == f.glue(yb).from_left.map[v]);
        assert(ni.back.map[v] == inner.bwd.map.map[f.glue(yb).from_left.map[v]]);
    }
    // The forward map.
    let tc = n.cospan();
    crate::theory::coslices::lemma_co_act(m, gf, tc, z);
    crate::theory::coslices::lemma_co_act(inner.collapse(), f, ni.cospan(), y);
    crate::theory::coslices::lemma_co_act(outer.collapse(), g, no.cospan(), z);
    let fold = UnderMor::act(m, gf, tc, z);
    let foldi = UnderMor::act(inner.collapse(), f, ni.cospan(), y);
    let foldo = UnderMor::act(outer.collapse(), g, no.cospan(), z);
    let th = UnderMor::theta(f, g, z);
    let fo = f.push_mor(outer.fwd);
    let t = tc.glue(z);
    let re = Prism::rematch(no, ni);
    let rb = Prism::rebuild(no, ni);
    assert forall|x: int| 0 <= x < inner.dom.forward.total implies n.fwd.map.map[x] == c.fwd.map.map[x] by {
        let e = inner.fwd.map.map[x];
        assert(fo.o(inner.fwd).map.map[x] == fo.map.map[e]);
        assert(w.fwd.map.map[x] == th.map.map[fo.map.map[e]]);
        assert(n.fwd.map.map[x] == fold.map.map[w.fwd.map.map[x]]);
        assert(ni.fwd.map.map[x] == foldi.map.map[e]);
        assert(c.fwd.map.map[x] == re.map[foldi.map.map[e]]);
        let s = crate::theory::colimits::lemma_push_cases(y.leg, f.from_right, e);
        if !s.0 {
            assert(fo.map.map[e] == qf.inner().from_right.map[s.1]);
            let k = qf.mn().from_left.map[s.1];
            assert(th.map.map[fo.map.map[e]] == qf.outer().from_right.map[k]);
            assert(gf.glue(z).from_right.map[k] == qf.outer().from_right.map[k]);
            assert(n.fwd.map.map[x] == t.from_right.map[inner.collapse().map[s.1]]);
            assert(foldi.map.map[e] == ni.cospan().glue(y).from_right.map[inner.collapse().map[s.1]]);
        } else {
            let v = outer.fwd.map.map[s.1];
            assert(fo.map.map[e] == qf.inner().from_left.map[v]);
            assert(foldi.map.map[e] == ni.cospan().glue(y).from_left.map[s.1]);
            assert(c.fwd.map.map[x] == rb.map[no.fwd.map.map[s.1]]);
            assert(no.fwd.map.map[s.1] == foldo.map.map[v]);
            let u = crate::theory::colimits::lemma_push_cases(z.leg, g.from_right, v);
            if u.0 {
                assert(qf.zn().from_left.map[u.1] == v);
                assert(th.map.map[fo.map.map[e]] == qf.outer().from_left.map[u.1]);
                assert(gf.glue(z).from_left.map[u.1] == qf.outer().from_left.map[u.1]);
                assert(foldo.map.map[v] == no.cospan().glue(z).from_left.map[u.1]);
            } else {
                assert(qf.zn().from_right.map[u.1] == v);
                let k = qf.mn().from_right.map[u.1];
                assert(th.map.map[fo.map.map[e]] == qf.outer().from_right.map[k]);
                assert(gf.glue(z).from_right.map[k] == qf.outer().from_right.map[k]);
                assert(foldo.map.map[v] == no.cospan().glue(z).from_right.map[outer.collapse().map[u.1]]);
            }
        }
    }
    assert(n.fwd.map =~= c.fwd.map);
}

// ----- coproducts -----

pub open spec fn cobases(parts: Seq<CoFam>) -> spec_fn(int) -> int {
    |i: int| parts[i].forward.base
}

pub open spec fn coforwards(parts: Seq<CoFam>) -> spec_fn(int) -> int {
    |i: int| parts[i].forward.total
}

pub open spec fn cobackwards(parts: Seq<CoFam>) -> spec_fn(int) -> int {
    |i: int| parts[i].backward.total
}

pub open spec fn coparts_wf(parts: Seq<CoFam>) -> bool {
    forall|i: int| 0 <= i < parts.len() ==> (#[trigger] parts[i]).wf()
}

/// The leg of a sum of coslices: the base point `k` of summand `i` goes to its
/// own image, shifted to where the total of summand `i` begins.
pub open spec fn cosum_leg(parts: Seq<CoFam>, sz: spec_fn(int) -> int, legs: spec_fn(int) -> Fun) -> Fun {
    let n = parts.len() as int;
    Fun {
        dom: crate::theory::listing::off(cobases(parts), n),
        cod: crate::theory::listing::off(sz, n),
        map: Seq::new(
            crate::theory::listing::off(cobases(parts), n) as nat,
            |x: int| {
                let i = crate::theory::listing::which(cobases(parts), n, x);
                crate::theory::listing::off(sz, i) + legs(i).map[x - crate::theory::listing::off(cobases(parts), i)]
            },
        ),
    }
}

impl CoFam {
    /// The initial family: under the empty base the forward fibre is initial
    /// and the backward fibre is terminal.
    pub open spec fn initial() -> CoFam {
        CoFam {
            forward: Under { base: 0, total: 0, leg: Fun { dom: 0, cod: 0, map: Seq::empty() } },
            backward: Under { base: 0, total: 1, leg: Fun { dom: 0, cod: 1, map: Seq::empty() } },
        }
    }

    /// The pointwise coproduct.
    pub open spec fn sum(parts: Seq<CoFam>) -> CoFam {
        let n = parts.len() as int;
        let base = crate::theory::listing::off(cobases(parts), n);
        if n == 0 {
            CoFam::initial()
        } else {
            CoFam {
                forward: Under {
                    base,
                    total: crate::theory::listing::off(coforwards(parts), n),
                    leg: cosum_leg(parts, coforwards(parts), |i: int| parts[i].forward.leg),
                },
                backward: Under {
                    base,
                    total: crate::theory::listing::off(cobackwards(parts), n),
                    leg: cosum_leg(parts, cobackwards(parts), |i: int| parts[i].backward.leg),
                },
            }
        }
    }
}

pub proof fn lemma_cosizes(parts: Seq<CoFam>)
    requires
        coparts_wf(parts),
    ensures
        crate::theory::listing::sizes_ok(cobases(parts), parts.len() as int),
        crate::theory::listing::sizes_ok(coforwards(parts), parts.len() as int),
        crate::theory::listing::sizes_ok(cobackwards(parts), parts.len() as int),
{
    assert forall|i: int| 0 <= i < parts.len() implies #[trigger] cobases(parts)(i) >= 0 by {
        assert(parts[i].wf());
    }
    assert forall|i: int| 0 <= i < parts.len() implies #[trigger] coforwards(parts)(i) >= 0 by {
        assert(parts[i].wf());
    }
    assert forall|i: int| 0 <= i < parts.len() implies #[trigger] cobackwards(parts)(i) >= 0 by {
        assert(parts[i].wf());
    }
}

/// The coproduct restricts to each summand: base points of summand `i` go to
/// the part of the totals that belongs to summand `i`.
pub proof fn law_cosum_summands(parts: Seq<CoFam>)
    requires
        coparts_wf(parts),
        parts.len() > 0,
    ensures
        CoFam::sum(parts).wf(),
        CoFam::sum(parts).forward.total == crate::theory::listing::off(coforwards(parts), parts.len() as int),
        CoFam::sum(parts).backward.total == crate::theory::listing::off(cobackwards(parts), parts.len() as int),
        forall|i: int, k: int|
            0 <= i < parts.len() && 0 <= k < parts[i].forward.base ==> #[trigger] CoFam::sum(parts).forward.leg.map[
                crate::theory::listing::off(cobases(parts), i) + k] == crate::theory::listing::off(coforwards(parts), i)
                + parts[i].forward.leg.map[k],
        forall|i: int, k: int|
            0 <= i < parts.len() && 0 <= k < parts[i].forward.base ==> #[trigger] CoFam::sum(parts).backward.leg.map[
                crate::theory::listing::off(cobases(parts), i) + k] == crate::theory::listing::off(cobackwards(parts), i)
                + parts[i].backward.leg.map[k],
{
    lemma_cosizes(parts);
    let n = parts.len() as int;
    let s = CoFam::sum(parts);
    crate::theory::listing::lemma_off_mono(cobases(parts), n, 0, n);
    crate::theory::listing::lemma_off_mono(coforwards(parts), n, 0, n);
    crate::theory::listing::lemma_off_mono(cobackwards(parts), n, 0, n);
    assert forall|x: int| 0 <= x < s.forward.base implies 0 <= #[trigger] s.forward.leg.map[x] < s.forward.total by {
        crate::theory::listing::lemma_which(cobases(parts), n, x);
        let i = crate::theory::listing::which(cobases(parts), n, x);
        let k = x - crate::theory::listing::off(cobases(parts), i);
        assert(parts[i].wf());
        crate::theory::listing::lemma_which_at(coforwards(parts), n, i, parts[i].forward.leg.map[k]);
    }
    assert forall|x: int| 0 <= x < s.backward.base implies 0 <= #[trigger] s.backward.leg.map[x] < s.backward.total by {
        crate::theory::listing::lemma_which(cobases(parts), n, x);
        let i = crate::theory::listing::which(cobases(parts), n, x);
        let k = x - crate::theory::listing::off(cobases(parts), i);
        assert(parts[i].wf());
        crate::theory::listing::lemma_which_at(cobackwards(parts), n, i, parts[i].backward.leg.map[k]);
    }
    assert forall|i: int, k: int| 0 <= i < parts.len() && 0 <= k < parts[i].forward.base implies #[trigger] s.forward.leg.map[
        crate::theory::listing::off(cobases(parts), i) + k] == crate::theory::listing::off(coforwards(parts), i)
        + parts[i].forward.leg.map[k] by {
        crate::theory::listing::lemma_which_at(cobases(parts), n, i, k);
    }
    assert forall|i: int, k: int| 0 <= i < parts.len() && 0 <= k < parts[i].forward.base implies #[trigger] s.backward.leg.map[
        crate::theory::listing::off(cobases(parts), i) + k] == crate::theory::listing::off(cobackwards(parts), i)
        + parts[i].backward.leg.map[k] by {
        crate::theory::listing::lemma_which_at(cobases(parts), n, i, k);
    }
}

/// The only prism out of the initial family.
pub open spec fn from_initial(cod: CoFam) -> Prism {
    let back = Fun { dom: cod.backward.total, cod: 1, map: Seq::new(cod.backward.total as nat, |i: int| 0) };
    let c = prism_cospan(CoFam::initial(), cod, back);
    Prism {
        dom: CoFam::initial(),
        cod,
        back,
        fwd: UnderMor {
            dom: CoFam::initial().forward,
            cod: c.push(cod.forward),
            map: Fun { dom: 0, cod: c.push(cod.forward).total, map: Seq::empty() },
        },
    }
}

/// The coproduct of no families is initial: exactly one prism leaves it for
/// each codomain.
pub proof fn law_prism_initial(cod: CoFam, p: Prism)
    requires
        cod.wf(),
    ensures
        from_initial(cod).hom(CoFam::sum(Seq::empty()), cod),
        p.hom(CoFam::sum(Seq::empty()), cod) ==> p == from_initial(cod),
        crate::dprism::all_prisms(CoFam::sum(Seq::empty()), cod).len() == 1,
{
    lemma_only_from_initial(cod, p);
    let all = crate::dprism::all_prisms(CoFam::sum(Seq::empty()), cod);
    crate::dprism::law_all_prisms(CoFam::sum(Seq::empty()), cod);
    assert(all.contains(from_initial(cod)));
    assert forall|k: int| 0 <= k < all.len() implies #[trigger] all[k] == from_initial(cod) by {
        assert(all.contains(all[k]));
        lemma_only_from_initial(cod, all[k]);
    }
    if all.len() > 1 {
        assert(all[0] == all[1]);
    }
}

proof fn lemma_only_from_initial(cod: CoFam, p: Prism)
    requires
        cod.wf(),
    ensures
        from_initial(cod).hom(CoFam::sum(Seq::empty()), cod),
        p.hom(CoFam::sum(Seq::empty()), cod) ==> p == from_initial(cod),
{
    let q = from_initial(cod);
    let c = q.cospan();
    crate::theory::coslices::lemma_push_wf(c, cod.forward);
    assert(q.fwd.map.o(q.fwd.dom.leg) =~= q.fwd.cod.leg);
    if p.hom(CoFam::sum(Seq::empty()), cod) {
        assert(p.back =~= q.back);
        assert(p.fwd.map =~= q.fwd.map);
    }
}

} // verus!
