//! Monoidal structure on dependent optics.
//!
//! The slice indexed category is lax monoidal via the cartesian product:
//! `(X → A) ⊗ (Y → B) = (X × Y → A × B)`. On normal forms,
//! `get = get1 × get2` and `put` is `put1 × put2` after the isomorphism
//! `(X × Y) ×_{A×B} (X' × Y') ≅ (X ×_A X') × (Y ×_B Y')`.
//! Functor lenses inherit the monoidal Grothendieck tensor. Prisms use the
//! coproduct in the same way.
use vstd::prelude::*;
use crate::comonoid::times;
use crate::dlens;
use crate::dlens::DLens;
use crate::finset;
use crate::finset::Mor;
use crate::optic::Family;
use crate::slice::SliceMor;
use crate::slice::SliceObj;
use crate::theory::fun::Fun;
use crate::theory::limits::Prod;
use crate::theory::slices::Over;
use crate::theory::optics::Fam;
use crate::theory::optics::Lens;

verus! {

/// The product of two slices fits in machine words.
pub open spec fn slice_product_fits(a: Over, b: Over) -> bool {
    a.base * b.base <= u32::MAX && a.total * b.total <= u32::MAX
}

pub open spec fn family_product_fits(a: Fam, b: Fam) -> bool {
    slice_product_fits(a.forward, b.forward) && slice_product_fits(a.backward, b.backward)
}

pub fn tensor_family(a: &Family, b: &Family) -> (r: Family)
    requires
        a.wf(),
        b.wf(),
        family_product_fits(a@, b@),
    ensures
        r@ == Fam::tensor(a@, b@),
        r.wf(),
{
    proof {
        crate::theory::monoidal::lemma_tensor_fam(a@, b@);
    }
    Family { forward: tensor_slice(&a.forward, &b.forward), backward: tensor_slice(&a.backward, &b.backward) }
}

/// `(X → A) ⊗ (Y → B) = (X × Y → A × B)`.
pub fn tensor_slice(a: &SliceObj, b: &SliceObj) -> (r: SliceObj)
    requires
        a.wf(),
        b.wf(),
        slice_product_fits(a@, b@),
    ensures
        r@ == crate::theory::monoidal::tensor_over_product(a@, b@),
{
    proof {
        crate::theory::monoidal::lemma_times_pair(a.leg@, b.leg@);
        assert(0 <= a.total * b.total && 0 <= a.base * b.base) by (nonlinear_arith)
            requires a.total >= 0, b.total >= 0, a.base >= 0, b.base >= 0;
    }
    let total = finset::product(a.total, b.total);
    let base = finset::product(a.base, b.base);
    proof {
        crate::theory::limits::law_product(
            a.total as int,
            b.total as int,
            Fun { dom: 0, cod: a.total as int, map: Seq::empty() },
            Fun { dom: 0, cod: b.total as int, map: Seq::empty() },
        );
    }
    let to_a = finset::compose(&a.leg, &total.fst);
    let to_b = finset::compose(&b.leg, &total.snd);
    proof {
        assert forall|z: int| 0 <= z < to_a.dom implies #[trigger] to_a@.map[z] * to_b.cod + to_b@.map[z] <= u32::MAX by {
            crate::theory::limits::lemma_pair_index(a.base as int, b.base as int, to_a@.map[z], to_b@.map[z]);
        }
    }
    SliceObj { base: base.obj, total: total.obj, leg: finset::pair(&to_a, &to_b) }
}

/// Everything that the product of two lenses builds fits in machine words.
pub open spec fn lens_product_fits(f: Lens, g: Lens) -> bool {
    &&& family_product_fits(f.dom, g.dom)
    &&& family_product_fits(f.cod, g.cod)
    &&& Lens::tensor(f, g).pb().apex <= u32::MAX
}

pub fn tensor_lens(f: &DLens, g: &DLens) -> (r: DLens)
    requires
        f.wf(),
        g.wf(),
        lens_product_fits(f@, g@),
    ensures
        r@ == Lens::tensor(f@, g@),
        r.wf(),
{
    proof {
        crate::theory::monoidal::lemma_tensor_lens(f@, g@);
    }
    let dom = tensor_family(&f.dom, &g.dom);
    let cod = tensor_family(&f.cod, &g.cod);
    let get = times(&f.get, &g.get);
    let put = product_put(f, g, &dom, &cod, &get);
    DLens { dom, cod, get, put }
}

fn product_put(f: &DLens, g: &DLens, dom: &Family, cod: &Family, get: &Mor) -> (r: SliceMor)
    requires
        f.wf(),
        g.wf(),
        lens_product_fits(f@, g@),
        dom@ == Fam::tensor(f.dom@, g.dom@),
        cod@ == Fam::tensor(f.cod@, g.cod@),
        get@ == Fun::times(f.get@, g.get@),
    ensures
        r@ == Lens::tensor(f@, g@).put,
{
    let ghost t = Lens::tensor(f@, g@);
    proof {
        crate::theory::monoidal::lemma_tensor_lens(f@, g@);
        crate::theory::optics::lemma_lens(t);
        crate::theory::optics::lemma_lens(f@);
        crate::theory::optics::lemma_lens(g@);
        assert(f.put.dom@.total == f@.pb().apex);
        assert(g.put.dom@.total == g@.pb().apex);
        assert(0 <= f.dom.forward.total * g.dom.forward.total && 0 <= f.cod.backward.total * g.cod.backward.total
            && 0 <= f.dom.backward.total * g.dom.backward.total) by (nonlinear_arith)
            requires
                f.dom.forward.total >= 0,
                g.dom.forward.total >= 0,
                f.cod.backward.total >= 0,
                g.cod.backward.total >= 0,
                f.dom.backward.total >= 0,
                g.dom.backward.total >= 0;
    }
    let domain = dlens::put_domain(dom, cod, get);
    let pb = domain.1;
    let pb_f = dlens::put_domain(&f.dom, &f.cod, &f.get).1;
    let pb_g = dlens::put_domain(&g.dom, &g.cod, &g.get).1;
    let xy = finset::product(f.dom.forward.total, g.dom.forward.total);
    let xyp = finset::product(f.cod.backward.total, g.cod.backward.total);
    let mut map: Vec<u32> = Vec::new();
    let mut k: u32 = 0;
    while k < pb.apex
        invariant
            k <= pb.apex,
            f.wf(),
            g.wf(),
            lens_product_fits(f@, g@),
            t == Lens::tensor(f@, g@),
            t.wf(),
            pb@ == t.pb(),
            pb_f@ == f@.pb(),
            pb_g@ == g@.pb(),
            pb_f.pairs@.len() <= u32::MAX,
            pb_g.pairs@.len() <= u32::MAX,
            xy@ == Prod::of(f.dom.forward.total as int, g.dom.forward.total as int),
            xyp@ == Prod::of(f.cod.backward.total as int, g.cod.backward.total as int),
            xy.obj == f.dom.forward.total * g.dom.forward.total,
            xyp.obj == f.cod.backward.total * g.cod.backward.total,
            map@.len() == k,
            forall|j: int| 0 <= j < k ==> map@[j] == t.put.map.map[j],
        decreases pb.apex - k,
    {
        proof {
            crate::theory::optics::lemma_lens(t);
            crate::theory::monoidal::lemma_tensor_lens(f@, g@);
        }
        let p: u32 = pb.to_left.apply(k);
        let q: u32 = pb.to_right.apply(k);
        proof {
            assert(t.pb().to_left.map[k as int] == p && t.pb().to_right.map[k as int] == q);
            assert(crate::theory::optics::fits_put(t.dom, t.cod, t.get, p as int, q as int));
            assert(t.put_at(p as int, q as int) == t.put.map.map[k as int]);
        }
        let x: u32 = xy.fst.apply(p);
        let y: u32 = xy.snd.apply(p);
        let xp: u32 = xyp.fst.apply(q);
        let yp: u32 = xyp.snd.apply(q);
        let u: u32 = dlens::put_apply(f, &pb_f, x, xp);
        let v: u32 = dlens::put_apply(g, &pb_g, y, yp);
        proof {
            crate::theory::limits::lemma_pair_index(
                f.dom.backward.total as int,
                g.dom.backward.total as int,
                u as int,
                v as int,
            );
        }
        map.push(finset::pair_index(g.dom.backward.total, u, v));
        k = k + 1;
    }
    let put_map = Mor { dom: pb.apex, cod: dom.backward.total, map };
    assert(put_map@ =~= t.put.map);
    SliceMor { dom: domain.0, cod: dom.backward.clone(), map: put_map }
}

/// The product of identity-forward families is identity-forward, and its
/// backward slice is the product of the backward slices.
pub proof fn law_functor_tensor(x: Over, y: Over)
    requires
        x.wf(),
        y.wf(),
    ensures
        ({
            let t = Fam::tensor(crate::functor_lens::identity_forward(x), crate::functor_lens::identity_forward(y));
            &&& t.forward.total == t.forward.base
            &&& t.forward.leg == Fun::id(t.forward.base)
            &&& t.backward == crate::theory::monoidal::tensor_over_product(x, y)
        }),
{
    crate::theory::monoidal::law_times_functorial(Fun::id(x.base), Fun::id(x.base), Fun::id(y.base), Fun::id(y.base));
}

} // verus!
