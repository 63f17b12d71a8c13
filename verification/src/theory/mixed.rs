//! Classical lenses and prisms: optics for the actions of products and
//! coproducts on finite sets.
use vstd::prelude::*;
use crate::theory::fun::Fun;
use crate::theory::limits::Prod;
use crate::theory::colimits::Sum;

verus! {

/// A pair of sets `(X, X')`.
pub struct Pr {
    pub forward: int,
    pub backward: int,
}

/// `get: X → Y` and `put: X × Y' → X'`.
#[verifier::ext_equal]
pub struct CLens {
    pub dom: Pr,
    pub cod: Pr,
    pub get: Fun,
    pub put: Fun,
}

impl CLens {
    pub open spec fn wf(self) -> bool {
        &&& self.get.hom(self.dom.forward, self.cod.forward)
        &&& self.put.hom(crate::theory::fun::sat_mul(self.dom.forward, self.cod.backward), self.dom.backward)
    }

    /// The domain of the put has as many elements as `X × Y'`.
    pub open spec fn fits(self) -> bool {
        self.dom.forward >= 0 && self.cod.backward >= 0 && self.dom.forward * self.cod.backward <= u32::MAX
    }

    pub open spec fn put_at(self, x: int, y: int) -> int {
        self.put.map[x * self.cod.backward + y]
    }

    pub open spec fn make(dom: Pr, cod: Pr, get: Fun, f: spec_fn(int, int) -> int) -> CLens {
        let n = crate::theory::fun::sat_mul(dom.forward, cod.backward);
        CLens {
            dom,
            cod,
            get,
            put: Fun {
                dom: n,
                cod: dom.backward,
                map: Seq::new(n as nat, |k: int| f(k / cod.backward, k % cod.backward)),
            },
        }
    }

    pub open spec fn id(x: Pr) -> CLens {
        CLens { dom: x, cod: x, get: Fun::id(x.forward), put: Prod::of(x.forward, x.backward).snd }
    }

    /// `put(x, z') = put₁(x, put₂(get₁(x), z'))`.
    pub open spec fn comp(outer: CLens, inner: CLens) -> CLens {
        CLens::make(
            inner.dom,
            outer.cod,
            outer.get.o(inner.get),
            |x: int, z: int| inner.put_at(x, outer.put_at(inner.get.map[x], z)),
        )
    }

    /// `x ↦ (x, get(x))`, the forward leg with residual `X`.
    pub open spec fn embed_fwd(self) -> Fun {
        Prod::pair(Fun::id(self.dom.forward), self.get)
    }

    /// The lens of a witness `l: X → M × Y`, `r: M × Y' → X'`.
    pub open spec fn normal(dom: Pr, cod: Pr, residual: int, fwd: Fun, bwd: Fun) -> CLens {
        let m = Prod::of(residual, cod.forward);
        CLens::make(
            dom,
            cod,
            m.snd.o(fwd),
            |x: int, y: int| bwd.map[m.fst.o(fwd).map[x] * cod.backward + y],
        )
    }
}

/// A put given by pairs has these values.
pub proof fn lemma_cmake(dom: Pr, cod: Pr, get: Fun, f: spec_fn(int, int) -> int)
    requires
        dom.forward >= 0,
        cod.backward >= 0,
        dom.backward >= 0,
        dom.forward * cod.backward <= u32::MAX,
        get.hom(dom.forward, cod.forward),
        forall|x: int, y: int| 0 <= x < dom.forward && 0 <= y < cod.backward ==> 0 <= #[trigger] f(x, y) < dom.backward,
    ensures
        CLens::make(dom, cod, get, f).wf(),
        forall|x: int, y: int|
            0 <= x < dom.forward && 0 <= y < cod.backward ==> #[trigger] CLens::make(dom, cod, get, f).put_at(x, y) == f(x, y),
{
    let l = CLens::make(dom, cod, get, f);
    let n = dom.forward * cod.backward;
    assert(n >= 0) by (nonlinear_arith) requires dom.forward >= 0, cod.backward >= 0, n == dom.forward * cod.backward;
    assert forall|k: int| 0 <= k < n implies 0 <= #[trigger] l.put.map[k] < dom.backward by {
        crate::theory::limits::lemma_unpair(dom.forward, cod.backward, k);
        assert(0 <= f(k / cod.backward, k % cod.backward) < dom.backward);
    }
    assert forall|x: int, y: int| 0 <= x < dom.forward && 0 <= y < cod.backward implies #[trigger] l.put_at(x, y) == f(x, y) by {
        crate::theory::limits::lemma_pair_index(dom.forward, cod.backward, x, y);
    }
}

pub proof fn lemma_clens(l: CLens)
    requires
        l.wf(),
        l.fits(),
    ensures
        forall|x: int, y: int|
            0 <= x < l.dom.forward && 0 <= y < l.cod.backward ==> 0 <= #[trigger] l.put_at(x, y) < l.dom.backward,
{
    assert forall|x: int, y: int| 0 <= x < l.dom.forward && 0 <= y < l.cod.backward implies 0 <= #[trigger] l.put_at(x, y)
        < l.dom.backward by {
        crate::theory::limits::lemma_pair_index(l.dom.forward, l.cod.backward, x, y);
    }
}

pub proof fn lemma_clens_ext(a: CLens, b: CLens)
    requires
        a.wf(),
        b.wf(),
        a.fits(),
        a.dom == b.dom,
        a.cod == b.cod,
        a.get == b.get,
        forall|x: int, y: int| 0 <= x < a.dom.forward && 0 <= y < a.cod.backward ==> #[trigger] a.put_at(x, y) == b.put_at(x, y),
    ensures
        a == b,
{
    assert forall|k: int| 0 <= k < a.put.dom implies a.put.map[k] == b.put.map[k] by {
        crate::theory::limits::lemma_unpair(a.dom.forward, a.cod.backward, k);
        assert(a.put_at(k / a.cod.backward, k % a.cod.backward) == b.put_at(k / a.cod.backward, k % a.cod.backward));
    }
    assert(a.put =~= b.put);
}

pub proof fn lemma_clens_id(x: Pr)
    requires
        x.forward >= 0,
        x.backward >= 0,
        x.forward * x.backward <= u32::MAX,
    ensures
        CLens::id(x).wf(),
        forall|a: int, b: int| 0 <= a < x.forward && 0 <= b < x.backward ==> #[trigger] CLens::id(x).put_at(a, b) == b,
{
    crate::theory::limits::law_product(
        x.forward,
        x.backward,
        Fun { dom: 0, cod: x.forward, map: Seq::empty() },
        Fun { dom: 0, cod: x.backward, map: Seq::empty() },
    );
    assert forall|a: int, b: int| 0 <= a < x.forward && 0 <= b < x.backward implies #[trigger] CLens::id(x).put_at(a, b) == b by {
        crate::theory::limits::lemma_pair_index(x.forward, x.backward, a, b);
    }
}

pub proof fn lemma_clens_comp(outer: CLens, inner: CLens)
    requires
        outer.wf(),
        inner.wf(),
        inner.cod == outer.dom,
        outer.fits(),
        inner.fits(),
        CLens::comp(outer, inner).fits(),
    ensures
        CLens::comp(outer, inner).wf(),
        forall|x: int, z: int|
            0 <= x < inner.dom.forward && 0 <= z < outer.cod.backward ==> #[trigger] CLens::comp(outer, inner).put_at(x, z)
                == inner.put_at(x, outer.put_at(inner.get.map[x], z)),
{
    lemma_clens(outer);
    lemma_clens(inner);
    let f = |x: int, z: int| inner.put_at(x, outer.put_at(inner.get.map[x], z));
    assert forall|x: int, z: int| 0 <= x < inner.dom.forward && 0 <= z < outer.cod.backward implies 0 <= #[trigger] f(x, z)
        < inner.dom.backward by {
        let y = outer.put_at(inner.get.map[x], z);
        assert(0 <= y < inner.cod.backward);
        assert(0 <= inner.put_at(x, y) < inner.dom.backward);
    }
    lemma_cmake(inner.dom, outer.cod, outer.get.o(inner.get), f);
}

/// Identity lenses are neutral.
pub proof fn law_clens_units(l: CLens)
    requires
        l.wf(),
        l.fits(),
        l.dom.forward * l.dom.backward <= u32::MAX,
        l.cod.forward * l.cod.backward <= u32::MAX,
    ensures
        CLens::comp(l, CLens::id(l.dom)) == l,
        CLens::comp(CLens::id(l.cod), l) == l,
{
    let a = CLens::comp(l, CLens::id(l.dom));
    let b = CLens::comp(CLens::id(l.cod), l);
    lemma_clens(l);
    lemma_clens_id(l.dom);
    lemma_clens_id(l.cod);
    lemma_clens_comp(l, CLens::id(l.dom));
    lemma_clens_comp(CLens::id(l.cod), l);
    crate::theory::fun::law_identity(l.get);
    assert forall|x: int, y: int| 0 <= x < l.dom.forward && 0 <= y < l.cod.backward implies #[trigger] a.put_at(x, y)
        == l.put_at(x, y) by {
        let v = l.put_at(x, y);
        assert(0 <= v < l.dom.backward);
        assert(CLens::id(l.dom).get.map[x] == x);
        assert(CLens::id(l.dom).put_at(x, v) == v);
    }
    lemma_clens_ext(a, l);
    assert forall|x: int, y: int| 0 <= x < l.dom.forward && 0 <= y < l.cod.backward implies #[trigger] b.put_at(x, y)
        == l.put_at(x, y) by {
        let v = l.get.map[x];
        assert(CLens::id(l.cod).put_at(v, y) == y);
    }
    lemma_clens_ext(b, l);
}

/// Composition of lenses is associative.
pub proof fn law_clens_associative(h: CLens, g: CLens, f: CLens)
    requires
        h.wf(),
        g.wf(),
        f.wf(),
        f.cod == g.dom,
        g.cod == h.dom,
        h.fits(),
        g.fits(),
        f.fits(),
        CLens::comp(h, g).fits(),
        CLens::comp(g, f).fits(),
        CLens::comp(h, CLens::comp(g, f)).fits(),
    ensures
        CLens::comp(h, CLens::comp(g, f)) == CLens::comp(CLens::comp(h, g), f),
{
    lemma_clens(h);
    lemma_clens_comp(g, f);
    lemma_clens_comp(h, g);
    let gf = CLens::comp(g, f);
    let hg = CLens::comp(h, g);
    lemma_clens_comp(h, gf);
    lemma_clens_comp(hg, f);
    let a = CLens::comp(h, gf);
    let b = CLens::comp(hg, f);
    crate::theory::fun::law_associative(h.get, g.get, f.get);
    assert forall|x: int, z: int| 0 <= x < a.dom.forward && 0 <= z < a.cod.backward implies #[trigger] a.put_at(x, z)
        == b.put_at(x, z) by {
        let y = f.get.map[x];
        assert(gf.get.map[x] == g.get.map[y]);
        let w = h.put_at(g.get.map[y], z);
        assert(0 <= w < h.dom.backward);
        assert(gf.put_at(x, w) == f.put_at(x, g.put_at(y, w)));
        assert(hg.put_at(y, z) == g.put_at(y, w));
    }
    lemma_clens_ext(a, b);
}

/// Embedding a lens and normalising the witness gives the lens back.
pub proof fn law_clens_normalize_embed(l: CLens)
    requires
        l.wf(),
        l.fits(),
        l.dom.forward * l.cod.forward <= u32::MAX,
    ensures
        l.embed_fwd().hom(l.dom.forward, l.dom.forward * l.cod.forward),
        CLens::normal(l.dom, l.cod, l.dom.forward, l.embed_fwd(), l.put) == l,
{
    let n = CLens::normal(l.dom, l.cod, l.dom.forward, l.embed_fwd(), l.put);
    let m = Prod::of(l.dom.forward, l.cod.forward);
    crate::theory::limits::law_product(l.dom.forward, l.cod.forward, Fun::id(l.dom.forward), l.get);
    lemma_clens(l);
    let f = |x: int, y: int| l.put.map[m.fst.o(l.embed_fwd()).map[x] * l.cod.backward + y];
    assert forall|x: int, y: int| 0 <= x < l.dom.forward && 0 <= y < l.cod.backward implies 0 <= #[trigger] f(x, y)
        < l.dom.backward && f(x, y) == l.put_at(x, y) by {
        assert(m.fst.o(l.embed_fwd()).map[x] == Fun::id(l.dom.forward).map[x]);
        assert(0 <= l.put_at(x, y) < l.dom.backward);
    }
    lemma_cmake(l.dom, l.cod, m.snd.o(l.embed_fwd()), f);
    assert forall|x: int, y: int| 0 <= x < l.dom.forward && 0 <= y < l.cod.backward implies #[trigger] n.put_at(x, y)
        == l.put_at(x, y) by {
        assert(f(x, y) == l.put_at(x, y));
    }
    lemma_clens_ext(n, l);
}

// ----- prisms -----

/// `build: Y' → X'` and `match: X → X' ⊔ Y`.
#[verifier::ext_equal]
pub struct CPrism {
    pub dom: Pr,
    pub cod: Pr,
    pub build: Fun,
    pub mat: Fun,
}

impl CPrism {
    pub open spec fn wf(self) -> bool {
        &&& self.build.hom(self.cod.backward, self.dom.backward)
        &&& self.mat.hom(self.dom.forward, self.dom.backward + self.cod.forward)
        &&& self.cod.forward >= 0
    }

    pub open spec fn id(x: Pr) -> CPrism {
        CPrism { dom: x, cod: x, build: Fun::id(x.backward), mat: Sum::of(x.backward, x.forward).inr }
    }

    /// Failures are built back into `X'`; matches are matched again.
    pub open spec fn comp(outer: CPrism, inner: CPrism) -> CPrism {
        let t = Sum::of(inner.dom.backward, outer.cod.forward);
        let fold = Sum::copair(t.inl.o(inner.build), t.inr);
        CPrism {
            dom: inner.dom,
            cod: outer.cod,
            build: inner.build.o(outer.build),
            mat: Sum::copair(t.inl, fold.o(outer.mat)).o(inner.mat),
        }
    }
}

pub proof fn lemma_cprism_comp(outer: CPrism, inner: CPrism)
    requires
        outer.wf(),
        inner.wf(),
        inner.cod == outer.dom,
    ensures
        CPrism::comp(outer, inner).wf(),
        forall|x: int| 0 <= x < inner.dom.forward ==> #[trigger] CPrism::comp(outer, inner).mat.map[x] == {
            let e = inner.mat.map[x];
            if e < inner.dom.backward {
                e
            } else {
                let d = outer.mat.map[e - inner.dom.backward];
                if d < outer.dom.backward {
                    inner.build.map[d]
                } else {
                    inner.dom.backward + (d - outer.dom.backward)
                }
            }
        },
{
    let t = Sum::of(inner.dom.backward, outer.cod.forward);
    let q = t.inl.o(inner.build);
    crate::theory::colimits::law_coproduct(q, t.inr);
    let fold = Sum::copair(q, t.inr);
    crate::theory::colimits::law_coproduct(t.inl, fold.o(outer.mat));
    let step = Sum::copair(t.inl, fold.o(outer.mat));
    assert forall|x: int| 0 <= x < inner.dom.forward implies #[trigger] CPrism::comp(outer, inner).mat.map[x] == {
        let e = inner.mat.map[x];
        if e < inner.dom.backward {
            e
        } else {
            let d = outer.mat.map[e - inner.dom.backward];
            if d < outer.dom.backward {
                inner.build.map[d]
            } else {
                inner.dom.backward + (d - outer.dom.backward)
            }
        }
    } by {
        let e = inner.mat.map[x];
        assert(0 <= e < inner.dom.backward + inner.cod.forward);
        if e < inner.dom.backward {
            assert(step.map[e] == t.inl.map[e]);
        } else {
            let d = outer.mat.map[e - inner.dom.backward];
            assert(step.map[e] == fold.o(outer.mat).map[e - inner.dom.backward]);
            assert(step.map[e] == fold.map[d]);
            if d < outer.dom.backward {
                assert(fold.map[d] == q.map[d]);
            } else {
                assert(fold.map[d] == t.inr.map[d - outer.dom.backward]);
            }
        }
    }
}

/// Identity prisms are neutral.
pub proof fn law_cprism_units(p: CPrism)
    requires
        p.wf(),
    ensures
        CPrism::comp(p, CPrism::id(p.dom)) == p,
        CPrism::comp(CPrism::id(p.cod), p) == p,
{
    let a = CPrism::comp(p, CPrism::id(p.dom));
    let b = CPrism::comp(CPrism::id(p.cod), p);
    lemma_cprism_comp(p, CPrism::id(p.dom));
    lemma_cprism_comp(CPrism::id(p.cod), p);
    crate::theory::fun::law_identity(p.build);
    assert forall|x: int| 0 <= x < p.dom.forward implies a.mat.map[x] == p.mat.map[x] && b.mat.map[x] == p.mat.map[x] by {
        assert(CPrism::id(p.dom).mat.map[x] == p.dom.backward + x);
        let e = p.mat.map[x];
        if e >= p.dom.backward {
            assert(CPrism::id(p.cod).mat.map[e - p.dom.backward] == p.cod.backward + (e - p.dom.backward));
        }
        assert(a.mat.map[x] == p.mat.map[x]);
        assert(b.mat.map[x] == p.mat.map[x]);
    }
    assert(a.mat =~= p.mat);
    assert(b.mat =~= p.mat);
}

/// Composition of prisms is associative.
pub proof fn law_cprism_associative(h: CPrism, g: CPrism, f: CPrism)
    requires
        h.wf(),
        g.wf(),
        f.wf(),
        f.cod == g.dom,
        g.cod == h.dom,
    ensures
        CPrism::comp(h, CPrism::comp(g, f)) == CPrism::comp(CPrism::comp(h, g), f),
{
    let gf = CPrism::comp(g, f);
    let hg = CPrism::comp(h, g);
    lemma_cprism_comp(g, f);
    lemma_cprism_comp(h, g);
    lemma_cprism_comp(h, gf);
    lemma_cprism_comp(hg, f);
    let a = CPrism::comp(h, gf);
    let b = CPrism::comp(hg, f);
    crate::theory::fun::law_associative(f.build, g.build, h.build);
    assert forall|x: int| 0 <= x < f.dom.forward implies a.mat.map[x] == b.mat.map[x] by {
        let e = f.mat.map[x];
        assert(0 <= e < f.dom.backward + f.cod.forward);
        if e >= f.dom.backward {
            let y = e - f.dom.backward;
            let d = g.mat.map[y];
            assert(0 <= d < g.dom.backward + g.cod.forward);
            assert(gf.mat.map[x] == if d < g.dom.backward { f.build.map[d] } else { f.dom.backward + (d - g.dom.backward) });
            if d >= g.dom.backward {
                let z = d - g.dom.backward;
                let c = h.mat.map[z];
                assert(0 <= c < h.dom.backward + h.cod.forward);
                assert(hg.mat.map[y] == if c < h.dom.backward { g.build.map[c] } else { g.dom.backward + (c - h.dom.backward) });
                if c < h.dom.backward {
                    assert(gf.build.map[c] == f.build.map[g.build.map[c]]);
                }
            } else {
                assert(hg.mat.map[y] == d);
            }
        }
        assert(a.mat.map[x] == b.mat.map[x]);
    }
    assert(a.mat =~= b.mat);
}

} // verus!
