//! Dependent optics.
//!
//! An object is a family: two slices over one base. A 1-cell is a witness
//! `⟨l | r⟩` with an explicit residual span `f`: a forward leg `l: X → f* Y` and
//! a backward leg `r: f* Y' → X'`. Two witnesses are related by a 2-cell
//! `m: f ⇒ g` of the base when `(L(m) ∘ l, r) ~ (l, r ∘ R(m))`.
use vstd::prelude::*;
use crate::slice;
use crate::slice::SliceMor;
use crate::slice::SliceObj;
use crate::span;
use crate::span::Span;
use crate::span::TwoCell;
use crate::theory::fun::Fun;
use crate::theory::slices::OverMor;
use crate::theory::optics::Fam;
use crate::theory::optics::Wit;

verus! {

/// A cospan `X → A ← X'`: two slices over one base.
#[derive(Eq, Debug)]
pub struct Family {
    pub forward: SliceObj,
    pub backward: SliceObj,
}

impl View for Family {
    type V = Fam;

    open spec fn view(&self) -> Fam {
        Fam { forward: self.forward@, backward: self.backward@ }
    }
}

impl Clone for Family {
    fn clone(&self) -> (r: Family)
        ensures
            r@ == self@,
    {
        Family { forward: self.forward.clone(), backward: self.backward.clone() }
    }
}

impl PartialEq for Family {
    fn eq(&self, other: &Family) -> (r: bool) {
        self.forward == other.forward && self.backward == other.backward
    }
}

impl vstd::std_specs::cmp::PartialEqSpecImpl for Family {
    open spec fn obeys_eq_spec() -> bool {
        true
    }

    open spec fn eq_spec(&self, other: &Family) -> bool {
        self@ == other@
    }
}

impl Family {
    pub open spec fn wf(&self) -> bool {
        self@.wf()
    }

    /// Whether both slices are well-formed and share their base.
    pub fn check(&self) -> (ok: bool)
        ensures
            ok == self.wf(),
    {
        self.forward.check() && self.backward.check() && self.forward.base == self.backward.base
    }
}

/// An optic with an explicit residual span.
#[derive(Eq, Debug)]
pub struct Witness {
    pub dom: Family,
    pub cod: Family,
    pub span: Span,
    /// `X → f* Y`.
    pub fwd: SliceMor,
    /// `f* Y' → X'`.
    pub bwd: SliceMor,
}

impl View for Witness {
    type V = Wit;

    open spec fn view(&self) -> Wit {
        Wit { dom: self.dom@, cod: self.cod@, span: self.span@, fwd: self.fwd@, bwd: self.bwd@ }
    }
}

impl Clone for Witness {
    fn clone(&self) -> (r: Witness)
        ensures
            r@ == self@,
    {
        Witness {
            dom: self.dom.clone(),
            cod: self.cod.clone(),
            span: self.span.clone(),
            fwd: self.fwd.clone(),
            bwd: self.bwd.clone(),
        }
    }
}

impl PartialEq for Witness {
    fn eq(&self, other: &Witness) -> (r: bool) {
        self.dom == other.dom && self.cod == other.cod && self.span == other.span && self.fwd == other.fwd && self.bwd
            == other.bwd
    }
}

impl vstd::std_specs::cmp::PartialEqSpecImpl for Witness {
    open spec fn obeys_eq_spec() -> bool {
        true
    }

    open spec fn eq_spec(&self, other: &Witness) -> bool {
        self@ == other@
    }
}

impl Witness {
    pub open spec fn wf(&self) -> bool {
        self@.wf()
    }

    /// The reindexed slices of the codomain fit in machine words.
    pub open spec fn fits(&self) -> bool {
        &&& self.span@.pull(self.cod@.forward).total <= u32::MAX
        &&& self.span@.pull(self.cod@.backward).total <= u32::MAX
    }

    /// Whether the legs are slice morphisms `X → f* Y` and `f* Y' → X'` for the
    /// residual span `f`.
    pub fn check(&self) -> (ok: bool)
        requires
            self.fits(),
        ensures
            ok == self.wf(),
    {
        if !(self.dom.check() && self.cod.check() && self.span.check() && self.span.left == self.dom.forward.base
            && self.span.right == self.cod.forward.base && self.fwd.check() && self.bwd.check()) {
            return false;
        }
        let fy = slice::reindex_obj(&self.span, &self.cod.forward);
        let fy_back = slice::reindex_obj(&self.span, &self.cod.backward);
        self.fwd.dom == self.dom.forward && self.fwd.cod == fy && self.bwd.dom == fy_back && self.bwd.cod
            == self.dom.backward
    }
}

/// The identity optic: the identity span, with `θ` and its inverse as legs.
pub fn identity(dom: &Family) -> (r: Witness)
    requires
        dom.wf(),
    ensures
        r@ == Wit::id(dom@),
        r.wf(),
{
    proof {
        crate::theory::optics::lemma_wit_id(dom@);
    }
    Witness {
        dom: dom.clone(),
        cod: dom.clone(),
        span: span::identity(dom.forward.base),
        fwd: slice::theta_id(&dom.forward),
        bwd: slice::theta_id_inv(&dom.backward),
    }
}

/// The nested pullbacks of a composite fit in machine words.
pub open spec fn comp_fits(outer: Wit, inner: Wit) -> bool {
    &&& span::tri_fits(crate::theory::slices::slice_tri(inner.span, outer.span, outer.cod.forward))
    &&& span::tri_fits(crate::theory::slices::slice_tri(inner.span, outer.span, outer.cod.backward))
}

/// Composition: `θ ∘ f*(l₂) ∘ l₁` forward and
/// `r₁ ∘ f*(r₂) ∘ θ^{-1}` backward, on the composite residual.
pub fn compose(outer: &Witness, inner: &Witness) -> (r: Witness)
    requires
        outer.wf(),
        inner.wf(),
        inner.cod@ == outer.dom@,
        comp_fits(outer@, inner@),
    ensures
        r@ == Wit::comp(outer@, inner@),
        r.wf(),
{
    let f = &inner.span;
    let g = &outer.span;
    proof {
        crate::theory::optics::lemma_wit_comp(outer@, inner@);
        crate::theory::slices::lemma_theta(f@, g@, outer.cod.forward@);
        crate::theory::slices::lemma_theta(f@, g@, outer.cod.backward@);
        crate::theory::slices::lemma_o_wf(f@.pull_mor(outer.fwd@), inner.fwd@);
        crate::theory::slices::lemma_o_wf(
            f@.pull_mor(outer.bwd@),
            OverMor::theta_inv(f@, g@, outer.cod.backward@),
        );
        assert(inner.fwd.cod@ == f@.pull(outer.fwd.dom@));
        assert(inner.bwd.dom@ == f@.pull(outer.bwd.cod@));
    }
    let f_fwd = slice::reindex_mor(f, &outer.fwd);
    let f_bwd = slice::reindex_mor(f, &outer.bwd);
    let theta = slice::theta_comp(f, g, &outer.cod.forward);
    let theta_inv = slice::theta_comp_inv(f, g, &outer.cod.backward);
    let fwd = slice::compose(&theta, &slice::compose(&f_fwd, &inner.fwd));
    let bwd = slice::compose(&inner.bwd, &slice::compose(&f_bwd, &theta_inv));
    Witness { dom: inner.dom.clone(), cod: outer.cod.clone(), span: span::compose(g, f), fwd, bwd }
}

/// Whether the 2-cell takes `from` to `to`: `L(m) ∘ l` is the forward leg of
/// `to`, and `r ∘ R(m)` is the backward leg of `from`.
pub fn related_by(cell: &TwoCell, from: &Witness, to: &Witness) -> (r: bool)
    requires
        from.wf(),
        to.wf(),
    ensures
        r == Wit::related(cell.map@, from@, to@),
{
    if !(from.dom == to.dom && from.cod == to.cod && cell.map.check() && cell.map.dom == from.span.apex
        && cell.map.cod == to.span.apex) {
        return false;
    }
    if !span::cell_commutes(cell, &from.span, &to.span) {
        return false;
    }
    proof {
        assert(from.fwd.cod@.total == from.span@.pull(from.cod@.forward).total);
        assert(from.bwd.dom@.total == from.span@.pull(from.cod@.backward).total);
        assert(to.fwd.cod@.total == to.span@.pull(from.cod@.forward).total);
        assert(to.bwd.dom@.total == to.span@.pull(from.cod@.backward).total);
        crate::theory::slices::lemma_act(cell.map@, from.span@, to.span@, from.cod@.forward);
        crate::theory::slices::lemma_act(cell.map@, from.span@, to.span@, from.cod@.backward);
    }
    let l = slice::act_two_cell(cell, &from.span, &to.span, &from.cod.forward);
    let r = slice::act_two_cell(cell, &from.span, &to.span, &from.cod.backward);
    slice::compose(&l, &from.fwd) == to.fwd && slice::compose(&to.bwd, &r) == from.bwd
}

/// Some 2-cell takes `a` to `b`.
pub open spec fn some_cell(a: Wit, b: Wit) -> bool {
    exists|m: Fun| Wit::related(m, a, b)
}

fn has_cell(from: &Witness, to: &Witness) -> (r: bool)
    requires
        from.wf(),
        to.wf(),
    ensures
        r == some_cell(from@, to@),
{
    if !(from.dom == to.dom && from.cod == to.cod) {
        return false;
    }
    let cells = span::two_cells(&from.span, &to.span);
    let mut k: usize = 0;
    while k < cells.len()
        invariant
            k <= cells.len(),
            from.wf(),
            to.wf(),
            forall|j: int| 0 <= j < k ==> !Wit::related((#[trigger] cells@[j]).map@, from@, to@),
        decreases cells.len() - k,
    {
        if related_by(&cells[k], from, to) {
            return true;
        }
        k = k + 1;
    }
    proof {
        if some_cell(from@, to@) {
            let m = choose|m: Fun| Wit::related(m, from@, to@);
            let all = span::all_funs(from.span@.apex, to.span@.apex);
            let keep = |c: Fun| from.span@.cell(c, to.span@);
            span::lemma_all_funs(from.span@.apex, to.span@.apex);
            slice::lemma_filter_members(all, keep);
            assert(m.hom(from.span@.apex, to.span@.apex));
            assert(all.contains(m) && keep(m));
            assert(all.filter(keep).contains(m));
            let maps = span::cell_maps(cells@);
            assert(maps == all.filter(keep));
            let j = choose|j: int| 0 <= j < maps.len() && maps[j] == m;
            assert(cells@[j].map@ == m);
        }
    }
    false
}

/// Whether a 2-cell relates the two witnesses, in one direction or the other.
pub fn equivalent(a: &Witness, b: &Witness) -> (r: bool)
    requires
        a.wf(),
        b.wf(),
    ensures
        r == (some_cell(a@, b@) || some_cell(b@, a@)),
{
    has_cell(a, b) || has_cell(b, a)
}

/// Equivalent witnesses have one normal form, and two witnesses with one
/// normal form are both related to its embedding: the connected components
/// of the relation are the normal forms.
pub proof fn law_components(a: Wit, b: Wit)
    requires
        a.wf(),
        b.wf(),
    ensures
        some_cell(a, b) || some_cell(b, a) ==> a.normal() == b.normal(),
        a.normal() == b.normal() ==> some_cell(a.normal().embed(), a) && some_cell(a.normal().embed(), b),
{
    if some_cell(a, b) {
        let m = choose|m: Fun| Wit::related(m, a, b);
        crate::theory::optics::law_related_normal(m, a, b);
    }
    if some_cell(b, a) {
        let m = choose|m: Fun| Wit::related(m, b, a);
        crate::theory::optics::law_related_normal(m, b, a);
    }
    crate::theory::optics::law_embed_normalize(a);
    crate::theory::optics::law_embed_normalize(b);
}

} // verus!
