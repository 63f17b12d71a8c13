//! Dependent optics: families, witnesses, their composition and the relation
//! generated by 2-cells of residuals; and dependent lenses, their normal form.
use vstd::prelude::*;
use crate::theory::fun::Fun;
use crate::theory::limits::Pull;
use crate::theory::spans::Sp;
use crate::theory::slices::Over;
use crate::theory::slices::OverMor;

verus! {

/// A cospan `X → A ← X'`: two slices over one base.
#[verifier::ext_equal]
pub struct Fam {
    pub forward: Over,
    pub backward: Over,
}

impl Fam {
    pub open spec fn wf(self) -> bool {
        self.forward.wf() && self.backward.wf() && self.forward.base == self.backward.base
    }
}

/// An optic with an explicit residual span.
#[verifier::ext_equal]
pub struct Wit {
    pub dom: Fam,
    pub cod: Fam,
    pub span: Sp,
    /// `X → f* Y`.
    pub fwd: OverMor,
    /// `f* Y' → X'`.
    pub bwd: OverMor,
}

impl Wit {
    pub open spec fn wf(self) -> bool {
        &&& self.dom.wf()
        &&& self.cod.wf()
        &&& self.span.wf()
        &&& self.span.left == self.dom.forward.base
        &&& self.span.right == self.cod.forward.base
        &&& self.fwd.hom(self.dom.forward, self.span.pull(self.cod.forward))
        &&& self.bwd.hom(self.span.pull(self.cod.backward), self.dom.backward)
    }

    pub open spec fn id(x: Fam) -> Wit {
        Wit {
            dom: x,
            cod: x,
            span: Sp::id(x.forward.base),
            fwd: OverMor::theta_id(x.forward),
            bwd: OverMor::theta_id_inv(x.backward),
        }
    }

    /// `outer ∘ inner`, with the composite residual.
    pub open spec fn comp(outer: Wit, inner: Wit) -> Wit {
        let f = inner.span;
        let g = outer.span;
        Wit {
            dom: inner.dom,
            cod: outer.cod,
            span: Sp::comp(g, f),
            fwd: OverMor::theta(f, g, outer.cod.forward).o(f.pull_mor(outer.fwd).o(inner.fwd)),
            bwd: inner.bwd.o(f.pull_mor(outer.bwd).o(OverMor::theta_inv(f, g, outer.cod.backward))),
        }
    }

    /// `(L(m) ∘ l, r) ~ (l, r ∘ R(m))`: the 2-cell `m` takes `a` to `b`.
    pub open spec fn related(m: Fun, a: Wit, b: Wit) -> bool {
        &&& a.dom == b.dom
        &&& a.cod == b.cod
        &&& crate::theory::slices::is_cell(m, a.span, b.span)
        &&& OverMor::act(m, a.span, b.span, a.cod.forward).o(a.fwd) == b.fwd
        &&& b.bwd.o(OverMor::act(m, a.span, b.span, a.cod.backward)) == a.bwd
    }
}

/// A dependent lens in normal form: a get of total spaces and a put over `A`.
#[verifier::ext_equal]
pub struct Lens {
    pub dom: Fam,
    pub cod: Fam,
    /// `X → Y`.
    pub get: Fun,
    /// `X ×_B Y' → X'`.
    pub put: OverMor,
}

/// The span `A ← X → B` of a get.
pub open spec fn get_span(dom: Fam, cod: Fam, get: Fun) -> Sp {
    Sp {
        left: dom.forward.base,
        right: cod.forward.base,
        apex: dom.forward.total,
        to_left: dom.forward.leg,
        to_right: cod.forward.leg.o(get),
    }
}

impl Lens {
    pub open spec fn span(self) -> Sp {
        get_span(self.dom, self.cod, self.get)
    }

    /// `X ×_B Y'`.
    pub open spec fn pb(self) -> Pull {
        self.span().fib(self.cod.backward)
    }

    pub open spec fn wf(self) -> bool {
        &&& self.dom.wf()
        &&& self.cod.wf()
        &&& self.get.hom(self.dom.forward.total, self.cod.forward.total)
        &&& self.put.hom(self.span().pull(self.cod.backward), self.dom.backward)
    }

    pub open spec fn hom(self, x: Fam, y: Fam) -> bool {
        self.wf() && self.dom == x && self.cod == y
    }

    /// `put(x, y')`.
    pub open spec fn put_at(self, x: int, y: int) -> int {
        self.put.map.map[self.pb().ix(x, y)]
    }

    pub open spec fn id(x: Fam) -> Lens {
        let s = get_span(x, x, Fun::id(x.forward.total));
        Lens {
            dom: x,
            cod: x,
            get: Fun::id(x.forward.total),
            put: OverMor { dom: s.pull(x.backward), cod: x.backward, map: s.fib(x.backward).to_right },
        }
    }

    /// `get = get₂ ∘ get₁` and `put(x, z') = put₁(x, put₂(get₁(x), z'))`.
    pub open spec fn comp(outer: Lens, inner: Lens) -> Lens {
        let get = outer.get.o(inner.get);
        let s = get_span(inner.dom, outer.cod, get);
        let pb = s.fib(outer.cod.backward);
        Lens {
            dom: inner.dom,
            cod: outer.cod,
            get,
            put: OverMor {
                dom: s.pull(outer.cod.backward),
                cod: inner.dom.backward,
                map: Fun {
                    dom: pb.apex,
                    cod: inner.dom.backward.total,
                    map: Seq::new(
                        pb.apex as nat,
                        |k: int|
                            inner.put_at(
                                pb.to_left.map[k],
                                outer.put_at(inner.get.map[pb.to_left.map[k]], pb.to_right.map[k]),
                            ),
                    ),
                },
            },
        }
    }

    /// The lens with the given get and the put `(x, y') ↦ f(x, y')`.
    pub open spec fn make(dom: Fam, cod: Fam, get: Fun, f: spec_fn(int, int) -> int) -> Lens {
        let s = get_span(dom, cod, get);
        let pb = s.fib(cod.backward);
        Lens {
            dom,
            cod,
            get,
            put: OverMor {
                dom: s.pull(cod.backward),
                cod: dom.backward,
                map: Fun {
                    dom: pb.apex,
                    cod: dom.backward.total,
                    map: Seq::new(pb.apex as nat, |k: int| f(pb.to_left.map[k], pb.to_right.map[k])),
                },
            },
        }
    }

    /// The witness whose residual is the total space of `X`.
    pub open spec fn embed(self) -> Wit {
        let s = self.span();
        Wit {
            dom: self.dom,
            cod: self.cod,
            span: s,
            fwd: OverMor {
                dom: self.dom.forward,
                cod: s.pull(self.cod.forward),
                map: s.fib(self.cod.forward).med(Fun::id(self.dom.forward.total), self.get),
            },
            bwd: self.put,
        }
    }
}

impl Wit {
    /// The residual of `x`, and the focus it is sent to.
    pub open spec fn residual(self) -> Fun {
        self.span.fib(self.cod.forward).to_left.o(self.fwd.map)
    }

    pub open spec fn focus(self) -> Fun {
        self.span.fib(self.cod.forward).to_right.o(self.fwd.map)
    }

    /// The put before normalisation, on `X ×_B Y'`.
    pub open spec fn into_residual(self) -> Fun {
        let pb = get_span(self.dom, self.cod, self.focus()).fib(self.cod.backward);
        let pm = self.span.fib(self.cod.backward);
        Fun {
            dom: pb.apex,
            cod: pm.apex,
            map: Seq::new(pb.apex as nat, |k: int| pm.ix(self.residual().map[pb.to_left.map[k]], pb.to_right.map[k])),
        }
    }

    /// The lens to which the witness reduces.
    pub open spec fn normal(self) -> Lens {
        let get = self.focus();
        let s = get_span(self.dom, self.cod, get);
        Lens {
            dom: self.dom,
            cod: self.cod,
            get,
            put: OverMor {
                dom: s.pull(self.cod.backward),
                cod: self.dom.backward,
                map: self.bwd.map.o(self.into_residual()),
            },
        }
    }
}

// ----- lenses -----

/// The put of a lens stays over the base.
pub proof fn lemma_lens(l: Lens)
    requires
        l.wf(),
    ensures
        l.span().wf(),
        l.pb().to_left.hom(l.pb().apex, l.dom.forward.total),
        l.pb().to_right.hom(l.pb().apex, l.cod.backward.total),
        l.pb().apex == l.put.map.dom,
        forall|x: int, y: int|
            0 <= x < l.dom.forward.total && 0 <= y < l.cod.backward.total && l.cod.forward.leg.map[l.get.map[x]]
                == l.cod.backward.leg.map[y] ==> {
                let k = l.pb().ix(x, y);
                &&& 0 <= k < l.pb().apex
                &&& l.pb().to_left.map[k] == x
                &&& l.pb().to_right.map[k] == y
                &&& 0 <= #[trigger] l.put_at(x, y) < l.dom.backward.total
                &&& l.dom.backward.leg.map[l.put_at(x, y)] == l.dom.forward.leg.map[x]
            },
        forall|k: int|
            #![trigger l.pb().to_left.map[k]]
            #![trigger l.pb().to_right.map[k]]
            #![trigger l.put.map.map[k]]
            0 <= k < l.pb().apex ==> {
                let x = l.pb().to_left.map[k];
                let y = l.pb().to_right.map[k];
                &&& 0 <= x < l.dom.forward.total
                &&& 0 <= y < l.cod.backward.total
                &&& l.cod.forward.leg.map[l.get.map[x]] == l.cod.backward.leg.map[y]
                &&& l.put_at(x, y) == l.put.map.map[k]
                &&& l.pb().ix(x, y) == k
            },
{
    let s = l.span();
    crate::theory::slices::lemma_pull_wf(s, l.cod.backward);
    crate::theory::limits::lemma_pull(s.to_right, l.cod.backward.leg);
    crate::theory::slices::lemma_triangle(l.put);
    assert forall|x: int| 0 <= x < l.dom.forward.total implies s.to_right.map[x]
        == l.cod.forward.leg.map[#[trigger] l.get.map[x]] by {
    }
    assert forall|x: int, y: int|
        0 <= x < l.dom.forward.total && 0 <= y < l.cod.backward.total && l.cod.forward.leg.map[l.get.map[x]]
            == l.cod.backward.leg.map[y] implies {
        let k = l.pb().ix(x, y);
        &&& 0 <= k < l.pb().apex
        &&& l.pb().to_left.map[k] == x
        &&& l.pb().to_right.map[k] == y
        &&& 0 <= #[trigger] l.put_at(x, y) < l.dom.backward.total
        &&& l.dom.backward.leg.map[l.put_at(x, y)] == l.dom.forward.leg.map[x]
    } by {
        assert(s.to_right.map[x] == l.cod.forward.leg.map[l.get.map[x]]);
        let k = l.pb().ix(x, y);
        assert(l.pb().to_left.map[k] == x);
        assert(l.put.dom.leg.map[k] == s.to_left.map[x]);
    }
}

/// A matching pair is listed in the domain of the put.
pub proof fn lemma_put_listed(l: Lens, x: int, y: int)
    requires
        l.wf(),
        0 <= x < l.dom.forward.total,
        0 <= y < l.cod.backward.total,
        l.cod.forward.leg.map[l.get.map[x]] == l.cod.backward.leg.map[y],
    ensures
        l.pb().lists(x, y),
        0 <= l.pb().ix(x, y) < l.pb().apex,
{
    let s = l.span();
    crate::theory::limits::lemma_pull(s.to_right, l.cod.backward.leg);
    assert(s.to_right.map[x] == l.cod.forward.leg.map[l.get.map[x]]);
    let k = l.pb().ix(x, y);
    assert(l.pb().to_left.map[k] == x);
}

/// Two lenses with one get are equal as soon as their puts agree on all pairs.
pub proof fn lemma_lens_ext(a: Lens, b: Lens)
    requires
        a.wf(),
        b.wf(),
        a.dom == b.dom,
        a.cod == b.cod,
        a.get == b.get,
        forall|x: int, y: int|
            0 <= x < a.dom.forward.total && 0 <= y < a.cod.backward.total && a.cod.forward.leg.map[a.get.map[x]]
                == a.cod.backward.leg.map[y] ==> #[trigger] a.put_at(x, y) == b.put_at(x, y),
    ensures
        a == b,
{
    lemma_lens(a);
    lemma_lens(b);
    assert forall|k: int| 0 <= k < a.pb().apex implies a.put.map.map[k] == b.put.map.map[k] by {
        let x = a.pb().to_left.map[k];
        let y = a.pb().to_right.map[k];
        assert(a.put_at(x, y) == b.put_at(x, y));
    }
    assert(a.put.map =~= b.put.map);
}

/// `y` lies over the focus of `x`.
pub open spec fn fits_put(dom: Fam, cod: Fam, get: Fun, x: int, y: int) -> bool {
    &&& 0 <= x < dom.forward.total
    &&& 0 <= y < cod.backward.total
    &&& cod.forward.leg.map[get.map[x]] == cod.backward.leg.map[y]
}

/// A lens made from a put that stays over the base has that put.
pub proof fn lemma_make(dom: Fam, cod: Fam, get: Fun, f: spec_fn(int, int) -> int)
    requires
        dom.wf(),
        cod.wf(),
        get.hom(dom.forward.total, cod.forward.total),
        forall|x: int, y: int| #[trigger] fits_put(dom, cod, get, x, y) ==> 0 <= f(x, y) < dom.backward.total
            && dom.backward.leg.map[f(x, y)] == dom.forward.leg.map[x],
    ensures
        Lens::make(dom, cod, get, f).hom(dom, cod),
        forall|x: int, y: int| fits_put(dom, cod, get, x, y) ==> #[trigger] Lens::make(dom, cod, get, f).put_at(x, y) == f(x, y),
{
    let l = Lens::make(dom, cod, get, f);
    let s = l.span();
    let pb = l.pb();
    crate::theory::slices::lemma_pull_wf(s, cod.backward);
    crate::theory::limits::lemma_pull(s.to_right, cod.backward.leg);
    assert forall|k: int| 0 <= k < pb.apex implies 0 <= #[trigger] l.put.map.map[k] < dom.backward.total
        && dom.backward.leg.map[l.put.map.map[k]] == l.put.dom.leg.map[k] by {
        let x = pb.to_left.map[k];
        let y = pb.to_right.map[k];
        assert(s.to_right.map[x] == cod.forward.leg.map[get.map[x]]);
        assert(fits_put(dom, cod, get, x, y));
    }
    assert(l.put.cod.leg.o(l.put.map) =~= l.put.dom.leg);
    assert forall|x: int, y: int| fits_put(dom, cod, get, x, y) implies #[trigger] l.put_at(x, y) == f(x, y) by {
        assert(s.to_right.map[x] == cod.forward.leg.map[get.map[x]]);
        let k = pb.ix(x, y);
        assert(pb.to_left.map[k] == x && pb.to_right.map[k] == y);
    }
}

pub proof fn lemma_lens_id(x: Fam)
    requires
        x.wf(),
    ensures
        Lens::id(x).hom(x, x),
        forall|a: int, b: int|
            0 <= a < x.forward.total && 0 <= b < x.backward.total && x.forward.leg.map[a] == x.backward.leg.map[b]
                ==> #[trigger] Lens::id(x).put_at(a, b) == b,
{
    let l = Lens::id(x);
    let s = l.span();
    assert(s.to_right =~= x.forward.leg);
    crate::theory::slices::lemma_pull_wf(s, x.backward);
    crate::theory::limits::lemma_pull(s.to_right, x.backward.leg);
    assert(l.put.cod.leg.o(l.put.map) =~= l.put.dom.leg);
    assert forall|a: int, b: int|
        0 <= a < x.forward.total && 0 <= b < x.backward.total && x.forward.leg.map[a] == x.backward.leg.map[b]
            implies #[trigger] l.put_at(a, b) == b by {
        let k = l.pb().ix(a, b);
        assert(l.pb().to_right.map[k] == b);
    }
}

/// The put of a composite, pair by pair.
pub proof fn lemma_lens_comp(outer: Lens, inner: Lens)
    requires
        outer.wf(),
        inner.wf(),
        inner.cod == outer.dom,
    ensures
        Lens::comp(outer, inner).hom(inner.dom, outer.cod),
        forall|x: int, z: int|
            0 <= x < inner.dom.forward.total && 0 <= z < outer.cod.backward.total
                && outer.cod.forward.leg.map[outer.get.map[inner.get.map[x]]] == outer.cod.backward.leg.map[z]
                ==> #[trigger] Lens::comp(outer, inner).put_at(x, z) == inner.put_at(
                x,
                outer.put_at(inner.get.map[x], z),
            ),
        forall|x: int| 0 <= x < inner.dom.forward.total ==> #[trigger] Lens::comp(outer, inner).get.map[x]
            == outer.get.map[inner.get.map[x]],
        forall|x: int, z: int|
            0 <= x < inner.dom.forward.total && 0 <= z < outer.cod.backward.total
                && outer.cod.forward.leg.map[outer.get.map[inner.get.map[x]]] == outer.cod.backward.leg.map[z] ==> {
                let y = #[trigger] outer.put_at(inner.get.map[x], z);
                0 <= y < inner.cod.backward.total && inner.cod.backward.leg.map[y]
                    == inner.cod.forward.leg.map[inner.get.map[x]]
            },
{
    lemma_lens(outer);
    lemma_lens(inner);
    let l = Lens::comp(outer, inner);
    let s = l.span();
    let pb = s.fib(outer.cod.backward);
    crate::theory::slices::lemma_pull_wf(s, outer.cod.backward);
    crate::theory::limits::lemma_pull(s.to_right, outer.cod.backward.leg);
    assert forall|x: int| 0 <= x < inner.dom.forward.total implies #[trigger] l.get.map[x]
        == outer.get.map[inner.get.map[x]] && s.to_right.map[x]
        == outer.cod.forward.leg.map[outer.get.map[inner.get.map[x]]] by {
    }
    assert forall|k: int| 0 <= k < pb.apex implies 0 <= #[trigger] l.put.map.map[k] < inner.dom.backward.total
        && inner.dom.backward.leg.map[l.put.map.map[k]] == l.put.dom.leg.map[k] by {
        let x = pb.to_left.map[k];
        let z = pb.to_right.map[k];
        assert(l.get.map[x] == outer.get.map[inner.get.map[x]]);
        let y = outer.put_at(inner.get.map[x], z);
        assert(l.put.map.map[k] == inner.put_at(x, y));
    }
    assert(l.put.cod.leg.o(l.put.map) =~= l.put.dom.leg);
    assert forall|x: int, z: int|
        0 <= x < inner.dom.forward.total && 0 <= z < outer.cod.backward.total
            && outer.cod.forward.leg.map[outer.get.map[inner.get.map[x]]] == outer.cod.backward.leg.map[z]
            implies #[trigger] l.put_at(x, z) == inner.put_at(x, outer.put_at(inner.get.map[x], z)) by {
        assert(l.get.map[x] == outer.get.map[inner.get.map[x]]);
        let k = l.pb().ix(x, z);
        assert(l.pb().to_left.map[k] == x && l.pb().to_right.map[k] == z);
    }
}

/// Identity lenses are neutral.
pub proof fn law_lens_units(l: Lens)
    requires
        l.wf(),
    ensures
        Lens::comp(l, Lens::id(l.dom)) == l,
        Lens::comp(Lens::id(l.cod), l) == l,
{
    lemma_lens(l);
    lemma_lens_id(l.dom);
    lemma_lens_id(l.cod);
    let a = Lens::comp(l, Lens::id(l.dom));
    let b = Lens::comp(Lens::id(l.cod), l);
    lemma_lens_comp(l, Lens::id(l.dom));
    lemma_lens_comp(Lens::id(l.cod), l);
    assert(a.get =~= l.get);
    assert(b.get =~= l.get);
    assert forall|x: int, y: int|
        0 <= x < a.dom.forward.total && 0 <= y < a.cod.backward.total && a.cod.forward.leg.map[a.get.map[x]]
            == a.cod.backward.leg.map[y] implies #[trigger] a.put_at(x, y) == l.put_at(x, y) by {
        assert(Lens::id(l.dom).get.map[x] == x);
        assert(0 <= l.put_at(x, y) < l.dom.backward.total);
        assert(Lens::id(l.dom).put_at(x, l.put_at(x, y)) == l.put_at(x, y));
    }
    lemma_lens_ext(a, l);
    assert forall|x: int, y: int|
        0 <= x < b.dom.forward.total && 0 <= y < b.cod.backward.total && b.cod.forward.leg.map[b.get.map[x]]
            == b.cod.backward.leg.map[y] implies #[trigger] b.put_at(x, y) == l.put_at(x, y) by {
        let v = l.get.map[x];
        assert(Lens::id(l.cod).get.map[v] == v);
        assert(Lens::id(l.cod).put_at(v, y) == y);
    }
    lemma_lens_ext(b, l);
}

/// Composition of lenses is associative.
pub proof fn law_lens_associative(third: Lens, outer: Lens, inner: Lens)
    requires
        third.wf(),
        outer.wf(),
        inner.wf(),
        inner.cod == outer.dom,
        outer.cod == third.dom,
    ensures
        Lens::comp(third, Lens::comp(outer, inner)) == Lens::comp(Lens::comp(third, outer), inner),
{
    lemma_lens_comp(outer, inner);
    lemma_lens_comp(third, outer);
    let oi = Lens::comp(outer, inner);
    let to = Lens::comp(third, outer);
    lemma_lens_comp(third, oi);
    lemma_lens_comp(to, inner);
    let a = Lens::comp(third, oi);
    let b = Lens::comp(to, inner);
    assert forall|x: int| 0 <= x < a.dom.forward.total implies a.get.map[x] == b.get.map[x] by {
        assert(oi.get.map[x] == outer.get.map[inner.get.map[x]]);
        assert(to.get.map[inner.get.map[x]] == third.get.map[outer.get.map[inner.get.map[x]]]);
    }
    assert(a.get =~= b.get);
    assert forall|x: int, z: int|
        0 <= x < a.dom.forward.total && 0 <= z < a.cod.backward.total && a.cod.forward.leg.map[a.get.map[x]]
            == a.cod.backward.leg.map[z] implies #[trigger] a.put_at(x, z) == b.put_at(x, z) by {
        let y = inner.get.map[x];
        assert(oi.get.map[x] == outer.get.map[y]);
        assert(to.get.map[y] == third.get.map[outer.get.map[y]]);
        let w = third.put_at(outer.get.map[y], z);
        assert(a.put_at(x, z) == oi.put_at(x, w));
        assert(oi.put_at(x, w) == inner.put_at(x, outer.put_at(y, w)));
        assert(b.put_at(x, z) == inner.put_at(x, to.put_at(y, z)));
        assert(to.put_at(y, z) == outer.put_at(y, w));
    }
    lemma_lens_ext(a, b);
}

// ----- witnesses -----

pub proof fn lemma_wit(w: Wit)
    requires
        w.wf(),
    ensures
        w.residual().hom(w.dom.forward.total, w.span.apex),
        w.focus().hom(w.dom.forward.total, w.cod.forward.total),
        get_span(w.dom, w.cod, w.focus()).wf(),
        w.normal().wf(),
        forall|x: int| 0 <= x < w.dom.forward.total ==> w.span.to_right.map[#[trigger] w.residual().map[x]]
            == w.cod.forward.leg.map[w.focus().map[x]],
        forall|x: int| 0 <= x < w.dom.forward.total ==> w.span.to_left.map[#[trigger] w.residual().map[x]]
            == w.dom.forward.leg.map[x],
        forall|x: int, y: int|
            0 <= x < w.dom.forward.total && 0 <= y < w.cod.backward.total && w.cod.forward.leg.map[w.focus().map[x]]
                == w.cod.backward.leg.map[y] ==> {
                let j = w.span.fib(w.cod.backward).ix(w.residual().map[x], y);
                &&& 0 <= j < w.span.pull(w.cod.backward).total
                &&& w.span.fib(w.cod.backward).to_left.map[j] == w.residual().map[x]
                &&& w.span.fib(w.cod.backward).to_right.map[j] == y
                &&& #[trigger] w.normal().put_at(x, y) == w.bwd.map.map[j]
            },
        w.into_residual().hom(w.normal().pb().apex, w.span.pull(w.cod.backward).total),
        forall|k: int| 0 <= k < w.normal().pb().apex ==> w.span.fib(w.cod.backward).lists(
            w.residual().map[#[trigger] w.normal().pb().to_left.map[k]],
            w.normal().pb().to_right.map[k],
        ),
{
    let f = w.span;
    let y = w.cod.forward;
    let yb = w.cod.backward;
    crate::theory::slices::lemma_pull_wf(f, y);
    crate::theory::slices::lemma_pull_wf(f, yb);
    crate::theory::slices::lemma_triangle(w.fwd);
    crate::theory::slices::lemma_triangle(w.bwd);
    crate::theory::limits::lemma_pull(f.to_right, yb.leg);
    let res = w.residual();
    let foc = w.focus();
    assert forall|x: int| 0 <= x < w.dom.forward.total implies f.to_right.map[#[trigger] res.map[x]] == y.leg.map[foc.map[x]]
        && f.to_left.map[res.map[x]] == w.dom.forward.leg.map[x] by {
        let i = w.fwd.map.map[x];
        assert(res.map[x] == f.fib(y).to_left.map[i]);
        assert(foc.map[x] == f.fib(y).to_right.map[i]);
        assert(f.pull(y).leg.map[i] == w.dom.forward.leg.map[x]);
    }
    let s = get_span(w.dom, w.cod, foc);
    crate::theory::slices::lemma_pull_wf(s, yb);
    crate::theory::limits::lemma_pull(s.to_right, yb.leg);
    let pb = s.fib(yb);
    let pm = f.fib(yb);
    let l = w.normal();
    let im = w.into_residual();
    assert forall|x: int| 0 <= x < w.dom.forward.total implies s.to_right.map[x] == y.leg.map[#[trigger] foc.map[x]] by {
    }
    assert forall|k: int| 0 <= k < pb.apex implies {
        let j = #[trigger] im.map[k];
        &&& 0 <= j < pm.apex
        &&& pm.to_left.map[j] == res.map[pb.to_left.map[k]]
        &&& pm.to_right.map[j] == pb.to_right.map[k]
        &&& pm.lists(res.map[pb.to_left.map[k]], pb.to_right.map[k])
    } by {
        let x = pb.to_left.map[k];
        let b = pb.to_right.map[k];
        assert(s.to_right.map[x] == y.leg.map[foc.map[x]]);
        assert(f.to_right.map[res.map[x]] == y.leg.map[foc.map[x]]);
        assert(im.map[k] == pm.ix(res.map[x], b));
    }
    assert forall|k: int| 0 <= k < l.pb().apex implies pm.lists(
        res.map[#[trigger] l.pb().to_left.map[k]],
        l.pb().to_right.map[k],
    ) by {
        assert(0 <= im.map[k] < pm.apex);
    }
    assert forall|k: int| 0 <= k < pb.apex implies w.dom.backward.leg.map[#[trigger] l.put.map.map[k]]
        == l.put.dom.leg.map[k] by {
        let j = im.map[k];
        assert(l.put.map.map[k] == w.bwd.map.map[j]);
        assert(f.pull(yb).leg.map[j] == f.to_left.map[pm.to_left.map[j]]);
        assert(s.pull(yb).leg.map[k] == s.to_left.map[pb.to_left.map[k]]);
    }
    assert(l.put.cod.leg.o(l.put.map) =~= l.put.dom.leg);
    assert forall|x: int, b: int|
        0 <= x < w.dom.forward.total && 0 <= b < yb.total && y.leg.map[foc.map[x]] == yb.leg.map[b] implies {
        let j = pm.ix(res.map[x], b);
        &&& 0 <= j < f.pull(yb).total
        &&& pm.to_left.map[j] == res.map[x]
        &&& pm.to_right.map[j] == b
        &&& #[trigger] l.put_at(x, b) == w.bwd.map.map[j]
    } by {
        assert(s.to_right.map[x] == y.leg.map[foc.map[x]]);
        assert(f.to_right.map[res.map[x]] == y.leg.map[foc.map[x]]);
        let k = pb.ix(x, b);
        assert(pb.to_left.map[k] == x && pb.to_right.map[k] == b);
        assert(im.map[k] == pm.ix(res.map[x], b));
        assert(l.put.map.map[k] == w.bwd.map.map[im.map[k]]);
    }
}

/// The put of the normal form at one pair.
pub proof fn lemma_wit_at(w: Wit, x: int, y: int)
    requires
        w.wf(),
        0 <= x < w.dom.forward.total,
        0 <= y < w.cod.backward.total,
        w.cod.forward.leg.map[w.focus().map[x]] == w.cod.backward.leg.map[y],
    ensures
        ({
            let j = w.span.fib(w.cod.backward).ix(w.residual().map[x], y);
            &&& 0 <= j < w.span.pull(w.cod.backward).total
            &&& w.span.fib(w.cod.backward).to_left.map[j] == w.residual().map[x]
            &&& w.span.fib(w.cod.backward).to_right.map[j] == y
            &&& w.normal().put_at(x, y) == w.bwd.map.map[j]
        }),
{
    lemma_wit(w);
    let v = w.normal().put_at(x, y);
}

pub proof fn lemma_wit_id(x: Fam)
    requires
        x.wf(),
    ensures
        Wit::id(x).wf(),
{
    crate::theory::slices::lemma_theta_id(x.forward);
    crate::theory::slices::lemma_theta_id(x.backward);
}

/// The composite of witnesses is a witness.
pub proof fn lemma_wit_comp(outer: Wit, inner: Wit)
    requires
        outer.wf(),
        inner.wf(),
        inner.cod == outer.dom,
    ensures
        Wit::comp(outer, inner).wf(),
        inner.span.pull_mor(outer.fwd).hom(inner.span.pull(inner.cod.forward), inner.span.pull(outer.span.pull(outer.cod.forward))),
        inner.span.pull_mor(outer.bwd).hom(inner.span.pull(outer.span.pull(outer.cod.backward)), inner.span.pull(inner.cod.backward)),
{
    let f = inner.span;
    let g = outer.span;
    crate::theory::slices::lemma_pull_mor(f, outer.fwd);
    crate::theory::slices::lemma_pull_mor(f, outer.bwd);
    crate::theory::slices::lemma_theta(f, g, outer.cod.forward);
    crate::theory::slices::lemma_theta(f, g, outer.cod.backward);
    crate::theory::slices::lemma_o_wf(f.pull_mor(outer.fwd), inner.fwd);
    crate::theory::slices::lemma_o_wf(
        OverMor::theta(f, g, outer.cod.forward),
        f.pull_mor(outer.fwd).o(inner.fwd),
    );
    crate::theory::slices::lemma_o_wf(f.pull_mor(outer.bwd), OverMor::theta_inv(f, g, outer.cod.backward));
    crate::theory::slices::lemma_o_wf(
        inner.bwd,
        f.pull_mor(outer.bwd).o(OverMor::theta_inv(f, g, outer.cod.backward)),
    );
}

pub proof fn lemma_embed(l: Lens)
    requires
        l.wf(),
    ensures
        l.embed().wf(),
        l.embed().residual() == Fun::id(l.dom.forward.total),
        l.embed().focus() == l.get,
        forall|w: int| 0 <= w < l.dom.forward.total ==> l.span().fib(l.cod.forward).lists(
            Fun::id(l.dom.forward.total).map[w],
            #[trigger] l.get.map[w],
        ),
{
    lemma_lens(l);
    let s = l.span();
    let y = l.cod.forward;
    let n = l.dom.forward.total;
    crate::theory::slices::lemma_pull_wf(s, y);
    assert forall|w: int| 0 <= w < n implies s.to_right.map[#[trigger] Fun::id(n).map[w]] == y.leg.map[l.get.map[w]] by {
    }
    crate::theory::spans::lemma_med(s.to_right, y.leg, Fun::id(n), l.get);
    let w = l.embed();
    assert forall|x: int| 0 <= x < n implies s.fib(y).lists(Fun::id(n).map[x], #[trigger] l.get.map[x]) by {
        assert(s.fib(y).lists(Fun::id(n).map[x], l.get.map[x]));
    }
    assert forall|x: int| 0 <= x < n implies w.residual().map[x] == x && w.focus().map[x] == l.get.map[x]
        && w.fwd.cod.leg.map[#[trigger] w.fwd.map.map[x]] == w.fwd.dom.leg.map[x] by {
        assert(Fun::id(n).map[x] == x);
    }
    assert(w.residual() =~= Fun::id(n));
    assert(w.focus() =~= l.get);
    assert(w.fwd.cod.leg.o(w.fwd.map) =~= w.fwd.dom.leg);
}

/// Embedding a lens and normalising the witness gives the lens back.
pub proof fn law_normalize_embed(l: Lens)
    requires
        l.wf(),
    ensures
        l.embed().wf(),
        l.embed().normal() == l,
{
    lemma_embed(l);
    lemma_lens(l);
    let w = l.embed();
    lemma_wit(w);
    let n = w.normal();
    assert forall|x: int, y: int|
        0 <= x < n.dom.forward.total && 0 <= y < n.cod.backward.total && n.cod.forward.leg.map[n.get.map[x]]
            == n.cod.backward.leg.map[y] implies #[trigger] n.put_at(x, y) == l.put_at(x, y) by {
        assert(w.residual().map[x] == x);
    }
    lemma_lens_ext(n, l);
}

/// A 2-cell of residuals does not change the normal form.
pub proof fn law_related_normal(m: Fun, a: Wit, b: Wit)
    requires
        a.wf(),
        b.wf(),
        Wit::related(m, a, b),
    ensures
        a.normal() == b.normal(),
{
    lemma_wit(a);
    lemma_wit(b);
    let y = a.cod.forward;
    let yb = a.cod.backward;
    crate::theory::slices::lemma_act(m, a.span, b.span, y);
    crate::theory::slices::lemma_act(m, a.span, b.span, yb);
    crate::theory::slices::lemma_pull_wf(a.span, y);
    crate::theory::slices::lemma_pull_wf(a.span, yb);
    crate::theory::slices::lemma_pull_wf(b.span, yb);
    let lf = OverMor::act(m, a.span, b.span, y);
    let rf = OverMor::act(m, a.span, b.span, yb);
    assert forall|x: int| 0 <= x < a.dom.forward.total implies #[trigger] a.focus().map[x] == b.focus().map[x]
        && b.residual().map[x] == m.map[a.residual().map[x]] by {
        assert(lf.o(a.fwd).map.map[x] == lf.map.map[a.fwd.map.map[x]]);
    }
    assert(a.focus() =~= b.focus());
    assert forall|x: int, z: int|
        0 <= x < a.dom.forward.total && 0 <= z < yb.total && y.leg.map[a.focus().map[x]] == yb.leg.map[z]
            implies #[trigger] a.normal().put_at(x, z) == b.normal().put_at(x, z) by {
        let j = a.span.fib(yb).ix(a.residual().map[x], z);
        let k = b.span.fib(yb).ix(b.residual().map[x], z);
        assert(a.normal().put_at(x, z) == a.bwd.map.map[j]);
        assert(b.normal().put_at(x, z) == b.bwd.map.map[k]);
        assert(b.bwd.o(rf).map.map[j] == b.bwd.map.map[rf.map.map[j]]);
        assert(a.focus().map[x] == b.focus().map[x]);
        crate::theory::slices::lemma_fib_inj(b.span, yb, rf.map.map[j], k);
    }
    lemma_lens_ext(a.normal(), b.normal());
}

/// Each witness is related to the embedding of its normal form, by its own
/// residual map.
pub proof fn law_embed_normalize(w: Wit)
    requires
        w.wf(),
    ensures
        Wit::related(w.residual(), w.normal().embed(), w),
{
    lemma_wit(w);
    let l = w.normal();
    lemma_embed(l);
    lemma_lens(l);
    let e = l.embed();
    let m = w.residual();
    let y = w.cod.forward;
    let yb = w.cod.backward;
    assert(w.span.to_left.o(m) =~= e.span.to_left);
    assert forall|x: int| 0 <= x < m.dom implies w.span.to_right.map[#[trigger] m.map[x]] == e.span.to_right.map[x] by {
        assert(e.span.to_right.map[x] == y.leg.map[l.get.map[x]]);
    }
    assert(w.span.to_right.o(m) =~= e.span.to_right);
    assert(crate::theory::slices::is_cell(m, e.span, w.span));
    crate::theory::slices::lemma_act(m, e.span, w.span, y);
    crate::theory::slices::lemma_act(m, e.span, w.span, yb);
    crate::theory::slices::lemma_pull_wf(w.span, y);
    crate::theory::slices::lemma_pull_wf(w.span, yb);
    crate::theory::slices::lemma_pull_wf(e.span, y);
    let lf = OverMor::act(m, e.span, w.span, y);
    let rf = OverMor::act(m, e.span, w.span, yb);
    assert forall|x: int| 0 <= x < m.dom implies #[trigger] lf.o(e.fwd).map.map[x] == w.fwd.map.map[x] by {
        let i = e.fwd.map.map[x];
        assert(lf.o(e.fwd).map.map[x] == lf.map.map[i]);
        assert(e.residual().map[x] == e.span.fib(y).to_left.map[i]);
        assert(e.focus().map[x] == e.span.fib(y).to_right.map[i]);
        assert(w.residual().map[x] == w.span.fib(y).to_left.map[w.fwd.map.map[x]]);
        assert(w.focus().map[x] == w.span.fib(y).to_right.map[w.fwd.map.map[x]]);
        crate::theory::slices::lemma_fib_inj(w.span, y, lf.map.map[i], w.fwd.map.map[x]);
    }
    assert(lf.o(e.fwd) =~= w.fwd);
    assert forall|k: int| 0 <= k < l.pb().apex implies #[trigger] w.bwd.o(rf).map.map[k] == l.put.map.map[k] by {
        let x = l.pb().to_left.map[k];
        let z = l.pb().to_right.map[k];
        assert(l.put_at(x, z) == l.put.map.map[k]);
        let j = w.span.fib(yb).ix(w.residual().map[x], z);
        assert(w.bwd.o(rf).map.map[k] == w.bwd.map.map[rf.map.map[k]]);
        crate::theory::slices::lemma_fib_inj(w.span, yb, rf.map.map[k], j);
    }
    assert(w.bwd.o(rf) =~= e.bwd);
}

/// The normal form of the identity witness is the identity lens.
pub proof fn law_normalize_identity(x: Fam)
    requires
        x.wf(),
    ensures
        Wit::id(x).wf(),
        Wit::id(x).normal() == Lens::id(x),
{
    lemma_wit_id(x);
    let w = Wit::id(x);
    lemma_wit(w);
    lemma_lens_id(x);
    crate::theory::slices::lemma_theta_id(x.forward);
    crate::theory::slices::lemma_theta_id(x.backward);
    let l = Lens::id(x);
    let n = w.normal();
    assert(n.get =~= l.get);
    crate::theory::slices::lemma_pull_wf(w.span, x.backward);
    assert forall|a: int, b: int|
        0 <= a < x.forward.total && 0 <= b < x.backward.total && x.forward.leg.map[n.get.map[a]]
            == x.backward.leg.map[b] implies #[trigger] n.put_at(a, b) == l.put_at(a, b) by {
        assert(w.focus().map[a] == a);
        let j = w.span.fib(x.backward).ix(w.residual().map[a], b);
        assert(w.bwd.map.map[j] == b);
        assert(l.put_at(a, b) == b);
    }
    lemma_lens_ext(n, l);
}

/// Normalising a composite of witnesses is composing the normal forms.
pub proof fn law_normalize_compose(outer: Wit, inner: Wit)
    requires
        outer.wf(),
        inner.wf(),
        inner.cod == outer.dom,
    ensures
        Wit::comp(outer, inner).wf(),
        Wit::comp(outer, inner).normal() == Lens::comp(outer.normal(), inner.normal()),
{
    let f = inner.span;
    let g = outer.span;
    let gf = Sp::comp(g, f);
    let z = outer.cod.forward;
    let zb = outer.cod.backward;
    let w = Wit::comp(outer, inner);
    lemma_wit_comp(outer, inner);
    lemma_wit(w);
    lemma_wit(inner);
    lemma_wit(outer);
    lemma_lens_comp(outer.normal(), inner.normal());
    crate::theory::slices::lemma_theta(f, g, z);
    crate::theory::slices::lemma_theta(f, g, zb);
    crate::theory::slices::lemma_pull_mor(f, outer.fwd);
    crate::theory::slices::lemma_pull_mor(f, outer.bwd);
    crate::theory::slices::lemma_pull_wf(f, inner.cod.forward);
    crate::theory::slices::lemma_pull_wf(f, inner.cod.backward);
    crate::theory::slices::lemma_pull_wf(g, z);
    crate::theory::slices::lemma_pull_wf(g, zb);
    crate::theory::slices::lemma_pull_wf(gf, z);
    crate::theory::slices::lemma_pull_wf(gf, zb);
    let th = OverMor::theta(f, g, z);
    let fo = f.pull_mor(outer.fwd);
    let c = Lens::comp(outer.normal(), inner.normal());
    let n = w.normal();
    // The residual of the composite is the pair of residuals.
    assert forall|x: int| 0 <= x < inner.dom.forward.total implies {
        &&& #[trigger] n.get.map[x] == c.get.map[x]
        &&& 0 <= w.residual().map[x] < gf.apex
        &&& Sp::meet(g, f).to_left.map[w.residual().map[x]] == inner.residual().map[x]
        &&& Sp::meet(g, f).to_right.map[w.residual().map[x]] == outer.residual().map[inner.focus().map[x]]
    } by {
        let i0 = inner.fwd.map.map[x];
        let i1 = fo.map.map[i0];
        let i2 = th.map.map[i1];
        assert(fo.o(inner.fwd).map.map[x] == i1);
        assert(w.fwd.map.map[x] == i2);
        assert(inner.focus().map[x] == f.fib(inner.cod.forward).to_right.map[i0]);
        assert(inner.residual().map[x] == f.fib(inner.cod.forward).to_left.map[i0]);
        let y = inner.focus().map[x];
        assert(outer.focus().map[y] == g.fib(z).to_right.map[outer.fwd.map.map[y]]);
        assert(outer.residual().map[y] == g.fib(z).to_left.map[outer.fwd.map.map[y]]);
        assert(c.get.map[x] == outer.focus().map[y]);
        assert(w.focus().map[x] == gf.fib(z).to_right.map[i2]);
        assert(w.residual().map[x] == gf.fib(z).to_left.map[i2]);
    }
    assert(n.get =~= c.get);
    let ti = OverMor::theta_inv(f, g, zb);
    let fb = f.pull_mor(outer.bwd);
    assert forall|x: int, b: int|
        0 <= x < n.dom.forward.total && 0 <= b < zb.total && n.cod.forward.leg.map[n.get.map[x]] == zb.leg.map[b]
            implies #[trigger] n.put_at(x, b) == c.put_at(x, b) by {
        let y = inner.focus().map[x];
        assert(n.get.map[x] == c.get.map[x]);
        assert(c.get.map[x] == outer.focus().map[y]);
        let yb = outer.normal().put_at(y, b);
        assert(c.put_at(x, b) == inner.normal().put_at(x, yb));
        let j = gf.fib(zb).ix(w.residual().map[x], b);
        assert(w.focus().map[x] == n.get.map[x]);
        lemma_wit_at(w, x, b);
        lemma_wit_at(outer, y, b);
        let j1 = ti.map.map[j];
        let j2 = fb.map.map[j1];
        assert(fb.o(ti).map.map[j] == j2);
        assert(w.bwd.map.map[j] == inner.bwd.map.map[j2]);
        let q = g.fib(zb).ix(outer.residual().map[y], b);
        assert(yb == outer.bwd.map.map[q]);
        let k = f.fib(g.pull(zb)).to_right.map[j1];
        crate::theory::slices::lemma_fib_inj(g, zb, k, q);
        let p = f.fib(inner.cod.backward).ix(inner.residual().map[x], yb);
        assert(inner.normal().put_at(x, yb) == inner.bwd.map.map[p]);
        crate::theory::slices::lemma_fib_inj(f, inner.cod.backward, j2, p);
    }
    lemma_lens_ext(n, c);
}

} // verus!
