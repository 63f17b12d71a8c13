//! Functor lenses are dependent optics for the terminal indexed category.
//!
//! With `L = •`, an object is a pair `(A, X' → A)`. A morphism is a base map
//! `f: A → B` together with `A ×_B Y' → X'` over `A`. That is the dependent
//! lens whose forward family is the identity `A → A`.
use vstd::prelude::*;
use crate::dlens::DLens;
use crate::finset;
use crate::finset::Mor;
use crate::optic::Family;
use crate::slice::SliceMor;
use crate::slice::SliceObj;
use crate::theory::fun::Fun;
use crate::theory::limits::Pull;
use crate::theory::slices::Over;
use crate::theory::slices::OverMor;
use crate::theory::optics::Fam;
use crate::theory::optics::Lens;

verus! {

/// The identity family `A → A` forward and `X' → A` backward.
pub open spec fn identity_forward(backward: Over) -> Fam {
    Fam {
        forward: Over { base: backward.base, total: backward.base, leg: Fun::id(backward.base) },
        backward,
    }
}

/// The identity family `A → A` on the forward leg and `X' → A` backward.
pub fn object(backward: &SliceObj) -> (r: Family)
    ensures
        r@ == identity_forward(backward@),
        backward.wf() ==> r.wf(),
{
    Family {
        forward: SliceObj { base: backward.base, total: backward.base, leg: finset::id(backward.base) },
        backward: backward.clone(),
    }
}

/// Both forward families are identities.
pub open spec fn functor_lens(lens: Lens) -> bool {
    &&& lens.dom.forward.leg == Fun::id(lens.dom.forward.base)
    &&& lens.dom.forward.total == lens.dom.forward.base
    &&& lens.cod.forward.leg == Fun::id(lens.cod.forward.base)
    &&& lens.cod.forward.total == lens.cod.forward.base
}

/// A functor lens is a dependent lens between identity-forward families, so
/// `get: A → B` is the base map and `put` is the backward leg.
pub fn is_functor_lens(lens: &DLens) -> (r: bool)
    ensures
        r == functor_lens(lens@),
{
    lens.dom.forward.leg == finset::id(lens.dom.forward.base) && lens.dom.forward.total == lens.dom.forward.base
        && lens.cod.forward.leg == finset::id(lens.cod.forward.base) && lens.cod.forward.total
        == lens.cod.forward.base
}

/// The lens with the given base map and put.
pub open spec fn lens_from_base(dom: Over, cod: Over, base_map: Fun, put: Fun) -> Lens {
    let pb = Pull::of(base_map, cod.leg);
    Lens {
        dom: identity_forward(dom),
        cod: identity_forward(cod),
        get: base_map,
        put: OverMor { dom: Over { base: dom.base, total: pb.apex, leg: pb.to_left }, cod: dom, map: put },
    }
}

/// Build the lens from an explicit base map and a put `A ×_B Y' → X'`.
pub fn from_base(dom: &SliceObj, cod: &SliceObj, base_map: &Mor, put: Mor) -> (r: DLens)
    requires
        dom.wf(),
        cod.wf(),
        base_map@.hom(dom.base as int, cod.base as int),
        Pull::of(base_map@, cod@.leg).apex <= u32::MAX,
        lens_from_base(dom@, cod@, base_map@, put@).wf(),
    ensures
        r@ == lens_from_base(dom@, cod@, base_map@, put@),
        r.wf(),
{
    let pb = finset::pullback(base_map, &cod.leg);
    DLens {
        dom: object(dom),
        cod: object(cod),
        get: base_map.clone(),
        put: SliceMor {
            dom: SliceObj { base: dom.base, total: pb.apex, leg: pb.to_left },
            cod: dom.clone(),
            map: put,
        },
    }
}

/// A base map and a put over it make a lens, and that lens is a functor lens.
pub proof fn law_from_base(dom: Over, cod: Over, base_map: Fun, put: Fun)
    requires
        dom.wf(),
        cod.wf(),
        base_map.hom(dom.base, cod.base),
        put.hom(Pull::of(base_map, cod.leg).apex, dom.total),
        dom.leg.o(put) == Pull::of(base_map, cod.leg).to_left,
    ensures
        lens_from_base(dom, cod, base_map, put).wf(),
        functor_lens(lens_from_base(dom, cod, base_map, put)),
{
    let l = lens_from_base(dom, cod, base_map, put);
    let s = l.span();
    crate::theory::fun::law_identity(base_map);
    assert(s.to_right == base_map);
    crate::theory::slices::lemma_pull_wf(s, cod);
    crate::theory::fun::law_identity(Pull::of(base_map, cod.leg).to_left);
    assert(s.pull(cod) =~= l.put.dom);
}

/// Functor lenses are closed under composition, their base maps compose, and
/// the domain of a put is the pullback of the base map along the backward leg.
pub proof fn law_functor_lenses_compose(outer: Lens, inner: Lens)
    requires
        outer.wf(),
        inner.wf(),
        inner.cod == outer.dom,
        functor_lens(outer),
        functor_lens(inner),
    ensures
        functor_lens(Lens::comp(outer, inner)),
        Lens::comp(outer, inner).get == outer.get.o(inner.get),
        inner.pb() == Pull::of(inner.get, inner.cod.backward.leg),
        inner.put.dom.total == Pull::of(inner.get, inner.cod.backward.leg).apex,
        functor_lens(Lens::id(inner.dom)),
{
    crate::theory::fun::law_identity(inner.get);
}

} // verus!
