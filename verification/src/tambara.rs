//! Tambara representations.
//!
//! `ι` makes a witness of a pair of slice maps, and witnesses slide along it on
//! either side of a lens. On a finite full subcategory, representables detect
//! optics: two dependent lenses are equal exactly when they induce the same
//! precomposition maps. The cartesian strength on classical lenses is the non-dependent case
//! of the same structure.
use vstd::prelude::*;
use crate::dlens;
use crate::dlens::DLens;
use crate::finset;
use crate::finset::Mor;
use crate::mixed;
use crate::mixed::Lens;
use crate::optic::Family;
use crate::optic::Witness;
use crate::slice;
use crate::slice::SliceMor;
use crate::theory::limits::Prod;
use crate::theory::spans::Sp;
use crate::theory::slices::OverMor;
use crate::theory::optics::Fam;
use crate::theory::optics::Wit;
use crate::theory::mixed::CLens;

verus! {

/// `l: X0 → X1` and `r: X1' → X0'` over one base.
pub open spec fn slides(l: OverMor, r: OverMor) -> bool {
    l.wf() && r.wf() && l.dom.base == r.dom.base
}

/// `⟨θ ∘ l | r ∘ θ^{-1}⟩` on the identity span.
pub open spec fn iota_of(l: OverMor, r: OverMor) -> Wit {
    Wit {
        dom: Fam { forward: l.dom, backward: r.cod },
        cod: Fam { forward: l.cod, backward: r.dom },
        span: Sp::id(l.dom.base),
        fwd: OverMor::theta_id(l.cod).o(l),
        bwd: r.o(OverMor::theta_id_inv(r.dom)),
    }
}

/// `ι_A(l, r) = ⟨θ ∘ l | r ∘ θ^{-1}⟩` on the identity span.
/// `l: X0 → X1` and `r: X1' → X0'`.
pub fn iota(l: &SliceMor, r: &SliceMor) -> (w: Witness)
    requires
        slides(l@, r@),
    ensures
        w@ == iota_of(l@, r@),
        w.wf(),
{
    proof {
        lemma_iota(l@, r@);
        crate::theory::slices::lemma_theta_id(l.cod@);
        crate::theory::slices::lemma_theta_id(r.dom@);
    }
    let dom = Family { forward: l.dom.clone(), backward: r.cod.clone() };
    let cod = Family { forward: l.cod.clone(), backward: r.dom.clone() };
    Witness {
        dom,
        cod,
        span: crate::span::identity(l.dom.base),
        fwd: slice::compose(&slice::theta_id(&l.cod), l),
        bwd: slice::compose(r, &slice::theta_id_inv(&r.dom)),
    }
}

/// `ι(l, r)` is a witness; its normal form has get `l` and put `(x, x') ↦ r(x')`.
pub proof fn lemma_iota(l: OverMor, r: OverMor)
    requires
        slides(l, r),
    ensures
        iota_of(l, r).wf(),
        iota_of(l, r).normal().wf(),
        iota_of(l, r).normal().get == l.map,
        forall|x: int, y: int|
            0 <= x < l.dom.total && 0 <= y < r.dom.total && l.cod.leg.map[l.map.map[x]] == r.dom.leg.map[y]
                ==> #[trigger] iota_of(l, r).normal().put_at(x, y) == r.map.map[y],
{
    crate::theory::slices::lemma_theta_id(l.cod);
    crate::theory::slices::lemma_theta_id(r.dom);
    crate::theory::slices::lemma_o_wf(OverMor::theta_id(l.cod), l);
    crate::theory::slices::lemma_o_wf(r, OverMor::theta_id_inv(r.dom));
    let w = iota_of(l, r);
    crate::theory::optics::lemma_wit(w);
    assert forall|x: int| 0 <= x < l.dom.total implies w.focus().map[x] == l.map.map[x] by {
        assert(w.fwd.map.map[x] == OverMor::theta_id(l.cod).map.map[l.map.map[x]]);
    }
    assert(w.focus() =~= l.map);
    assert forall|x: int, y: int|
        0 <= x < l.dom.total && 0 <= y < r.dom.total && l.cod.leg.map[l.map.map[x]] == r.dom.leg.map[y]
            implies #[trigger] w.normal().put_at(x, y) == r.map.map[y] by {
        crate::theory::optics::lemma_wit_at(w, x, y);
        let j = w.span.fib(r.dom).ix(w.residual().map[x], y);
        assert(w.bwd.map.map[j] == r.map.map[OverMor::theta_id_inv(r.dom).map.map[j]]);
    }
}

/// The lens with get `get ∘ l` and put `(x0, y') ↦ r(put(l(x0), y'))`.
pub open spec fn after_domain(lens: crate::theory::optics::Lens, l: OverMor, r: OverMor) -> crate::theory::optics::Lens {
    crate::theory::optics::Lens::make(
        Fam { forward: l.dom, backward: r.cod },
        lens.cod,
        lens.get.o(l.map),
        |x: int, y: int| r.map.map[lens.put_at(l.map.map[x], y)],
    )
}

/// The lens with get `l ∘ get` and put `(x, z') ↦ put(x, r(z'))`.
pub open spec fn before_codomain(lens: crate::theory::optics::Lens, l: OverMor, r: OverMor) -> crate::theory::optics::Lens {
    crate::theory::optics::Lens::make(
        lens.dom,
        Fam { forward: l.cod, backward: r.dom },
        l.map.o(lens.get),
        |x: int, z: int| lens.put_at(x, r.map.map[z]),
    )
}

/// Sliding `ι(l, r)` before a lens precomposes its get with `l` and
/// postcomposes its put with `r`.
pub proof fn law_slide_before(lens: crate::theory::optics::Lens, l: OverMor, r: OverMor)
    requires
        lens.wf(),
        slides(l, r),
        l.cod == lens.dom.forward,
        r.dom == lens.dom.backward,
    ensures
        after_domain(lens, l, r).wf(),
        Wit::comp(lens.embed(), iota_of(l, r)).wf(),
        Wit::comp(lens.embed(), iota_of(l, r)).normal() == after_domain(lens, l, r),
{
    let w = iota_of(l, r);
    lemma_iota(l, r);
    crate::theory::optics::law_normalize_embed(lens);
    crate::theory::optics::law_normalize_compose(lens.embed(), w);
    let i = w.normal();
    let c = crate::theory::optics::Lens::comp(lens, i);
    crate::theory::optics::lemma_lens_comp(lens, i);
    crate::theory::optics::lemma_lens(lens);
    crate::theory::slices::lemma_triangle(l);
    crate::theory::slices::lemma_triangle(r);
    let a = after_domain(lens, l, r);
    let f = |x: int, y: int| r.map.map[lens.put_at(l.map.map[x], y)];
    assert forall|x: int, y: int| #[trigger] crate::theory::optics::fits_put(a.dom, a.cod, a.get, x, y) implies 0 <= f(x, y)
        < a.dom.backward.total && a.dom.backward.leg.map[f(x, y)] == a.dom.forward.leg.map[x] by {
        let x1 = l.map.map[x];
        assert(a.get.map[x] == lens.get.map[x1]);
        let v = lens.put_at(x1, y);
        assert(0 <= v < lens.dom.backward.total);
        assert(r.cod.leg.map[r.map.map[v]] == r.dom.leg.map[v]);
    }
    crate::theory::optics::lemma_make(a.dom, a.cod, a.get, f);
    assert forall|x: int, y: int|
        0 <= x < c.dom.forward.total && 0 <= y < c.cod.backward.total && c.cod.forward.leg.map[c.get.map[x]]
            == c.cod.backward.leg.map[y] implies #[trigger] c.put_at(x, y) == a.put_at(x, y) by {
        let x1 = l.map.map[x];
        assert(c.get.map[x] == lens.get.map[x1]);
        let v = lens.put_at(x1, y);
        assert(0 <= v < lens.dom.backward.total);
        assert(c.put_at(x, y) == i.put_at(x, v));
        assert(i.put_at(x, v) == r.map.map[v]);
        assert(crate::theory::optics::fits_put(a.dom, a.cod, a.get, x, y));
        assert(a.put_at(x, y) == f(x, y));
    }
    crate::theory::optics::lemma_lens_ext(c, a);
}

/// Sliding `ι(l, r)` after a lens postcomposes its get with `l` and
/// precomposes its put with `r`.
pub proof fn law_slide_after(lens: crate::theory::optics::Lens, l: OverMor, r: OverMor)
    requires
        lens.wf(),
        slides(l, r),
        l.dom == lens.cod.forward,
        r.cod == lens.cod.backward,
    ensures
        before_codomain(lens, l, r).wf(),
        Wit::comp(iota_of(l, r), lens.embed()).wf(),
        Wit::comp(iota_of(l, r), lens.embed()).normal() == before_codomain(lens, l, r),
{
    let w = iota_of(l, r);
    lemma_iota(l, r);
    crate::theory::optics::law_normalize_embed(lens);
    crate::theory::optics::law_normalize_compose(w, lens.embed());
    let i = w.normal();
    let c = crate::theory::optics::Lens::comp(i, lens);
    crate::theory::optics::lemma_lens_comp(i, lens);
    crate::theory::optics::lemma_lens(lens);
    crate::theory::slices::lemma_triangle(l);
    crate::theory::slices::lemma_triangle(r);
    let b = before_codomain(lens, l, r);
    let f = |x: int, z: int| lens.put_at(x, r.map.map[z]);
    assert forall|x: int, z: int| #[trigger] crate::theory::optics::fits_put(b.dom, b.cod, b.get, x, z) implies 0 <= f(x, z)
        < b.dom.backward.total && b.dom.backward.leg.map[f(x, z)] == b.dom.forward.leg.map[x] by {
        let y = lens.get.map[x];
        assert(b.get.map[x] == l.map.map[y]);
        let v = r.map.map[z];
        assert(r.cod.leg.map[v] == r.dom.leg.map[z]);
        assert(l.cod.leg.map[l.map.map[y]] == l.dom.leg.map[y]);
        assert(0 <= lens.put_at(x, v) < lens.dom.backward.total);
    }
    crate::theory::optics::lemma_make(b.dom, b.cod, b.get, f);
    assert forall|x: int, z: int|
        0 <= x < c.dom.forward.total && 0 <= z < c.cod.backward.total && c.cod.forward.leg.map[c.get.map[x]]
            == c.cod.backward.leg.map[z] implies #[trigger] c.put_at(x, z) == b.put_at(x, z) by {
        let y = lens.get.map[x];
        assert(c.get.map[x] == l.map.map[y]);
        assert(c.put_at(x, z) == lens.put_at(x, i.put_at(y, z)));
        assert(i.put_at(y, z) == r.map.map[z]);
        assert(crate::theory::optics::fits_put(b.dom, b.cod, b.get, x, z));
        assert(b.put_at(x, z) == f(x, z));
    }
    crate::theory::optics::lemma_lens_ext(c, b);
}

/// `ι` preserves composition, up to the relation of witnesses.
pub proof fn law_iota_composes(l2: OverMor, r2: OverMor, l1: OverMor, r1: OverMor)
    requires
        slides(l1, r1),
        slides(l2, r2),
        l1.cod == l2.dom,
        r2.cod == r1.dom,
    ensures
        slides(l2.o(l1), r1.o(r2)),
        Wit::comp(iota_of(l2, r2), iota_of(l1, r1)).wf(),
        Wit::comp(iota_of(l2, r2), iota_of(l1, r1)).normal() == iota_of(l2.o(l1), r1.o(r2)).normal(),
{
    crate::theory::slices::lemma_o_wf(l2, l1);
    crate::theory::slices::lemma_o_wf(r1, r2);
    lemma_iota(l1, r1);
    lemma_iota(l2, r2);
    lemma_iota(l2.o(l1), r1.o(r2));
    crate::theory::optics::law_normalize_compose(iota_of(l2, r2), iota_of(l1, r1));
    let i1 = iota_of(l1, r1).normal();
    let i2 = iota_of(l2, r2).normal();
    let a = crate::theory::optics::Lens::comp(i2, i1);
    let b = iota_of(l2.o(l1), r1.o(r2)).normal();
    crate::theory::optics::lemma_lens_comp(i2, i1);
    crate::theory::slices::lemma_triangle(l2);
    crate::theory::slices::lemma_triangle(r2);
    assert forall|x: int, z: int|
        0 <= x < a.dom.forward.total && 0 <= z < a.cod.backward.total && a.cod.forward.leg.map[a.get.map[x]]
            == a.cod.backward.leg.map[z] implies #[trigger] a.put_at(x, z) == b.put_at(x, z) by {
        let y = l1.map.map[x];
        assert(a.get.map[x] == l2.map.map[y]);
        assert(i2.put_at(y, z) == r2.map.map[z]);
        let v = r2.map.map[z];
        assert(a.put_at(x, z) == i1.put_at(x, v));
        assert(l2.cod.leg.map[l2.map.map[y]] == l2.dom.leg.map[y]);
        assert(r2.cod.leg.map[v] == r2.dom.leg.map[z]);
        assert(i1.put_at(x, v) == r1.map.map[v]);
        assert(l2.o(l1).map.map[x] == l2.map.map[y]);
        assert(b.put_at(x, z) == r1.o(r2).map.map[z]);
        assert(r1.o(r2).map.map[z] == r1.map.map[v]);
    }
    crate::theory::optics::lemma_lens_ext(a, b);
}

/// Representables detect lenses: those that act in the same way by
/// composition are equal.
pub proof fn law_representables_detect(a: crate::theory::optics::Lens, b: crate::theory::optics::Lens)
    requires
        a.wf(),
        b.wf(),
        a.dom == b.dom,
        a.cod == b.cod,
        forall|u: crate::theory::optics::Lens|
            #[trigger] u.wf() && u.dom == a.cod ==> crate::theory::optics::Lens::comp(u, a) == crate::theory::optics::Lens::comp(
                u,
                b,
            ),
    ensures
        a == b,
{
    let e = crate::theory::optics::Lens::id(a.cod);
    crate::theory::optics::lemma_lens_id(a.cod);
    assert(e.wf());
    crate::theory::optics::law_lens_units(a);
    crate::theory::optics::law_lens_units(b);
}

/// A lens after `ι(l, r)`: get `get ∘ l` and put `r ∘ put`.
pub fn lens_after_domain(lens: &DLens, l: &SliceMor, r: &SliceMor) -> (out: DLens)
    requires
        lens.wf(),
        slides(l@, r@),
        l.cod@ == lens.dom@.forward,
        r.dom@ == lens.dom@.backward,
        after_domain(lens@, l@, r@).pb().apex <= u32::MAX,
    ensures
        out@ == after_domain(lens@, l@, r@),
        out.wf(),
{
    let ghost a = after_domain(lens@, l@, r@);
    proof {
        law_slide_before(lens@, l@, r@);
        crate::theory::optics::lemma_lens(a);
        crate::theory::optics::lemma_lens(lens@);
        assert(lens.put.dom@.total == lens@.pb().apex);
    }
    let get = finset::compose(&lens.get, &l.map);
    let dom = Family { forward: l.dom.clone(), backward: r.cod.clone() };
    let domain = dlens::put_domain(&dom, &lens.cod, &get);
    let pb = domain.1;
    let old_pb = dlens::put_domain(&lens.dom, &lens.cod, &lens.get).1;
    let mut map: Vec<u32> = Vec::new();
    let mut k: u32 = 0;
    while k < pb.apex
        invariant
            k <= pb.apex,
            lens.wf(),
            slides(l@, r@),
            l.cod@ == lens.dom@.forward,
            r.dom@ == lens.dom@.backward,
            a == after_domain(lens@, l@, r@),
            a.wf(),
            pb@ == a.pb(),
            old_pb@ == lens@.pb(),
            old_pb.pairs@.len() <= u32::MAX,
            map@.len() == k,
            forall|j: int| 0 <= j < k ==> map@[j] == a.put.map.map[j],
        decreases pb.apex - k,
    {
        proof {
            crate::theory::optics::lemma_lens(a);
        }
        let x0: u32 = pb.to_left.apply(k);
        let yp: u32 = pb.to_right.apply(k);
        let x1: u32 = l.map.apply(x0);
        proof {
            assert(a.pb().to_left.map[k as int] == x0 && a.pb().to_right.map[k as int] == yp);
            assert(a.get.map[x0 as int] == lens@.get.map[x1 as int]);
        }
        let old: u32 = dlens::put_apply(lens, &old_pb, x1, yp);
        map.push(r.map.apply(old));
        k = k + 1;
    }
    let put_map = Mor { dom: pb.apex, cod: r.cod.total, map };
    assert(put_map@ =~= a.put.map);
    DLens { dom, cod: lens.cod.clone(), get, put: SliceMor { dom: domain.0, cod: r.cod.clone(), map: put_map } }
}

/// A lens before `ι(l, r)`: get `l ∘ get` and put `(x, z') ↦ put(x, r(z'))`.
pub fn lens_before_codomain(lens: &DLens, l: &SliceMor, r: &SliceMor) -> (out: DLens)
    requires
        lens.wf(),
        slides(l@, r@),
        l.dom@ == lens.cod@.forward,
        r.cod@ == lens.cod@.backward,
        before_codomain(lens@, l@, r@).pb().apex <= u32::MAX,
    ensures
        out@ == before_codomain(lens@, l@, r@),
        out.wf(),
{
    let ghost b = before_codomain(lens@, l@, r@);
    proof {
        law_slide_after(lens@, l@, r@);
        crate::theory::optics::lemma_lens(b);
        crate::theory::optics::lemma_lens(lens@);
        assert(lens.put.dom@.total == lens@.pb().apex);
    }
    let get = finset::compose(&l.map, &lens.get);
    let cod = Family { forward: l.cod.clone(), backward: r.dom.clone() };
    let domain = dlens::put_domain(&lens.dom, &cod, &get);
    let pb = domain.1;
    let old_pb = dlens::put_domain(&lens.dom, &lens.cod, &lens.get).1;
    let mut map: Vec<u32> = Vec::new();
    let mut k: u32 = 0;
    while k < pb.apex
        invariant
            k <= pb.apex,
            lens.wf(),
            slides(l@, r@),
            l.dom@ == lens.cod@.forward,
            r.cod@ == lens.cod@.backward,
            b == before_codomain(lens@, l@, r@),
            b.wf(),
            pb@ == b.pb(),
            old_pb@ == lens@.pb(),
            old_pb.pairs@.len() <= u32::MAX,
            map@.len() == k,
            forall|j: int| 0 <= j < k ==> map@[j] == b.put.map.map[j],
        decreases pb.apex - k,
    {
        proof {
            crate::theory::optics::lemma_lens(b);
            crate::theory::slices::lemma_triangle(l@);
            crate::theory::slices::lemma_triangle(r@);
        }
        let x: u32 = pb.to_left.apply(k);
        let zp: u32 = pb.to_right.apply(k);
        let yp: u32 = r.map.apply(zp);
        proof {
            assert(b.pb().to_left.map[k as int] == x && b.pb().to_right.map[k as int] == zp);
            let y = lens@.get.map[x as int];
            assert(b.get.map[x as int] == l@.map.map[y]);
            assert(r@.cod.leg.map[r@.map.map[zp as int]] == r@.dom.leg.map[zp as int]);
            assert(l@.cod.leg.map[l@.map.map[y]] == l@.dom.leg.map[y]);
        }
        map.push(dlens::put_apply(lens, &old_pb, x, yp));
        k = k + 1;
    }
    let put_map = Mor { dom: pb.apex, cod: lens.dom.backward.total, map };
    assert(put_map@ =~= b.put.map);
    DLens {
        dom: lens.dom.clone(),
        cod,
        get,
        put: SliceMor { dom: domain.0, cod: lens.dom.backward.clone(), map: put_map },
    }
}

/// Cartesian strength `id_C × lens`, with the backward copy of `C` kept.
pub fn strengthen(lens: &Lens, c: u32) -> (r: Lens)
    requires
        lens.wf(),
        crate::theory::monoidal::strong_fits(lens@, c as int),
        c * lens.dom.forward <= u32::MAX,
        c * lens.dom.backward <= u32::MAX,
        c * lens.cod.forward <= u32::MAX,
        c * lens.cod.backward <= u32::MAX,
    ensures
        r@ == CLens::strong(lens@, c as int),
        r.wf(),
{
    let ghost s = CLens::strong(lens@, c as int);
    proof {
        crate::theory::monoidal::lemma_strong(lens@, c as int);
        assert(0 <= c * lens.dom.forward && 0 <= c * lens.dom.backward && 0 <= c * lens.cod.forward && 0 <= c
            * lens.cod.backward) by (nonlinear_arith)
            requires
                c >= 0,
                lens.dom.forward >= 0,
                lens.dom.backward >= 0,
                lens.cod.forward >= 0,
                lens.cod.backward >= 0;
    }
    let dom = mixed::Pair { forward: c * lens.dom.forward, backward: c * lens.dom.backward };
    let cod = mixed::Pair { forward: c * lens.cod.forward, backward: c * lens.cod.backward };
    let get = crate::comonoid::times(&finset::id(c), &lens.get);
    proof {
        assert(0 <= dom.forward * cod.backward) by (nonlinear_arith) requires dom.forward >= 0, cod.backward >= 0;
    }
    let prod = finset::product(dom.forward, cod.backward);
    let mut map: Vec<u32> = Vec::new();
    let mut k: u32 = 0;
    while k < prod.obj
        invariant
            k <= prod.obj,
            lens.wf(),
            crate::theory::monoidal::strong_fits(lens@, c as int),
            s == CLens::strong(lens@, c as int),
            dom.forward == c * lens.dom.forward,
            dom.backward == c * lens.dom.backward,
            cod.backward == c * lens.cod.backward,
            prod@ == Prod::of(dom.forward as int, cod.backward as int),
            prod.obj == dom.forward * cod.backward,
            map@.len() == k,
            forall|j: int| 0 <= j < k ==> map@[j] == s.put.map[j],
        decreases prod.obj - k,
    {
        proof {
            crate::theory::limits::lemma_unpair(dom.forward as int, cod.backward as int, k as int);
        }
        let cx: u32 = prod.fst.apply(k);
        let cy: u32 = prod.snd.apply(k);
        proof {
            crate::theory::monoidal::lemma_strong_at(lens@, c as int, cx as int, cy as int);
        }
        let x: u32 = cx % lens.dom.forward;
        let y_prime: u32 = cy % lens.cod.backward;
        let c_bwd: u32 = cy / lens.cod.backward;
        proof {
            crate::theory::limits::lemma_pair_index(
                lens.dom.forward as int,
                lens.cod.backward as int,
                x as int,
                y_prime as int,
            );
            crate::theory::mixed::lemma_clens(lens@);
            assert(0 <= lens@.put_at(x as int, y_prime as int) < lens.dom.backward);
            crate::theory::limits::lemma_pair_index(
                c as int,
                lens.dom.backward as int,
                c_bwd as int,
                lens@.put_at(x as int, y_prime as int),
            );
        }
        let inner: u32 = finset::pair_index(lens.cod.backward, x, y_prime);
        let updated: u32 = lens.put.apply(inner);
        map.push(finset::pair_index(lens.dom.backward, c_bwd, updated));
        k = k + 1;
    }
    let put = Mor { dom: prod.obj, cod: dom.backward, map };
    assert(put@ =~= s.put);
    Lens { dom, cod, get, put }
}

} // verus!
