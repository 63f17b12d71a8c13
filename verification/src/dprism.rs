//! Dependent prisms.
//!
//! Objects are spans `X ← A → X'`. A witness is a cospan with two
//! coslice maps. The explicit form is
//!
//! ```text
//! ⨿_{Y' → X'} A/C(X, X' ⊔_B Y)
//! ```
//!
//! with `Y' → X'` a map of total spaces. Composition is that of
//! witnesses, transported across the Yoneda isomorphism.
use vstd::prelude::*;
use crate::finset;
use crate::finset::Mor;
use crate::slice;
use crate::slice::CosliceMor;
use crate::slice::CosliceObj;
use crate::span;
use crate::span::Cospan;
use crate::theory::fun::Fun;
use crate::theory::coslices::UnderMor;
use crate::theory::coslices::Quad;
use crate::theory::prisms::CoFam;
use crate::theory::prisms::PWit;
use crate::theory::prisms::Prism;

verus! {

/// `(X, X')_A` with both legs coslices `A → X` and `A → X'`.
#[derive(Eq, Debug)]
pub struct CoFamily {
    pub forward: CosliceObj,
    pub backward: CosliceObj,
}

impl View for CoFamily {
    type V = CoFam;

    open spec fn view(&self) -> CoFam {
        CoFam { forward: self.forward@, backward: self.backward@ }
    }
}

impl Clone for CoFamily {
    fn clone(&self) -> (r: CoFamily)
        ensures
            r@ == self@,
    {
        CoFamily { forward: self.forward.clone(), backward: self.backward.clone() }
    }
}

impl PartialEq for CoFamily {
    fn eq(&self, other: &CoFamily) -> (r: bool) {
        self.forward == other.forward && self.backward == other.backward
    }
}

impl vstd::std_specs::cmp::PartialEqSpecImpl for CoFamily {
    open spec fn obeys_eq_spec() -> bool {
        true
    }

    open spec fn eq_spec(&self, other: &CoFamily) -> bool {
        self@ == other@
    }
}

impl CoFamily {
    pub open spec fn wf(&self) -> bool {
        self@.wf()
    }

    /// Whether both coslices are well-formed and share their base.
    pub fn check(&self) -> (ok: bool)
        ensures
            ok == self.wf(),
    {
        self.forward.check() && self.backward.check() && self.forward.base == self.backward.base
    }
}

#[derive(Eq, Debug)]
pub struct PrismWitness {
    pub dom: CoFamily,
    pub cod: CoFamily,
    pub cospan: Cospan,
    pub fwd: CosliceMor,
    pub bwd: CosliceMor,
}

impl View for PrismWitness {
    type V = PWit;

    open spec fn view(&self) -> PWit {
        PWit { dom: self.dom@, cod: self.cod@, cospan: self.cospan@, fwd: self.fwd@, bwd: self.bwd@ }
    }
}

impl Clone for PrismWitness {
    fn clone(&self) -> (r: PrismWitness)
        ensures
            r@ == self@,
    {
        PrismWitness {
            dom: self.dom.clone(),
            cod: self.cod.clone(),
            cospan: self.cospan.clone(),
            fwd: self.fwd.clone(),
            bwd: self.bwd.clone(),
        }
    }
}

impl PartialEq for PrismWitness {
    fn eq(&self, other: &PrismWitness) -> (r: bool) {
        self.dom == other.dom && self.cod == other.cod && self.cospan == other.cospan && self.fwd == other.fwd
            && self.bwd == other.bwd
    }
}

impl vstd::std_specs::cmp::PartialEqSpecImpl for PrismWitness {
    open spec fn obeys_eq_spec() -> bool {
        true
    }

    open spec fn eq_spec(&self, other: &PrismWitness) -> bool {
        self@ == other@
    }
}

/// The pushouts along the residual fit in machine words.
pub open spec fn residual_fits(w: PWit) -> bool {
    &&& w.cod.forward.total + w.cospan.apex <= u32::MAX
    &&& w.cod.backward.total + w.cospan.apex <= u32::MAX
}

impl PrismWitness {
    pub open spec fn wf(&self) -> bool {
        self@.wf()
    }

    /// Whether the legs are coslice morphisms `X → f* Y` and `f* Y' → X'` for
    /// the residual cospan `f`.
    pub fn check(&self) -> (ok: bool)
        requires
            residual_fits(self@),
        ensures
            ok == self.wf(),
    {
        if !(self.dom.check() && self.cod.check() && self.cospan.check() && self.cospan.left == self.dom.forward.base
            && self.cospan.right == self.cod.forward.base && self.fwd.check() && self.bwd.check()) {
            return false;
        }
        let fy = slice::reindex_coslice(&self.cospan, &self.cod.forward);
        let fy_back = slice::reindex_coslice(&self.cospan, &self.cod.backward);
        self.fwd.dom == self.dom.forward && self.bwd.cod == self.dom.backward && self.fwd.cod == fy && self.bwd.dom
            == fy_back
    }
}

pub fn witness_id(dom: &CoFamily) -> (r: PrismWitness)
    requires
        dom.wf(),
        dom.forward.total + dom.forward.base <= u32::MAX,
        dom.backward.total + dom.backward.base <= u32::MAX,
    ensures
        r@ == PWit::id(dom@),
        r.wf(),
{
    proof {
        crate::theory::prisms::lemma_pwit_id(dom@);
    }
    PrismWitness {
        dom: dom.clone(),
        cod: dom.clone(),
        cospan: span::coidentity(dom.forward.base),
        fwd: slice::co_theta_id(&dom.forward),
        bwd: slice::co_theta_id_inv(&dom.backward),
    }
}

/// The nested pushouts of a composite fit in machine words.
pub open spec fn witness_comp_fits(outer: PWit, inner: PWit) -> bool {
    &&& slice::quad_fits(Quad::of(inner.cospan, outer.cospan, outer.cod.forward))
    &&& slice::quad_fits(Quad::of(inner.cospan, outer.cospan, outer.cod.backward))
    &&& residual_fits(inner)
}

pub fn witness_compose(outer: &PrismWitness, inner: &PrismWitness) -> (r: PrismWitness)
    requires
        outer.wf(),
        inner.wf(),
        inner.cod@ == outer.dom@,
        witness_comp_fits(outer@, inner@),
    ensures
        r@ == PWit::comp(outer@, inner@),
        r.wf(),
{
    let f = &inner.cospan;
    let g = &outer.cospan;
    proof {
        crate::theory::prisms::lemma_pwit_comp(outer@, inner@);
        crate::theory::coslices::lemma_co_theta(f@, g@, outer.cod.forward@);
        crate::theory::coslices::lemma_co_theta(f@, g@, outer.cod.backward@);
        crate::theory::coslices::lemma_push_mor(f@, outer.fwd@);
        crate::theory::coslices::lemma_push_mor(f@, outer.bwd@);
        crate::theory::coslices::lemma_under_o(f@.push_mor(outer.fwd@), inner.fwd@);
        crate::theory::coslices::lemma_under_o(
            f@.push_mor(outer.bwd@),
            UnderMor::theta_inv(f@, g@, outer.cod.backward@),
        );
        assert(outer.fwd.cod@.total == Quad::of(f@, g@, outer.cod.forward@).zn().apex);
        assert(outer.bwd.dom@.total == Quad::of(f@, g@, outer.cod.backward@).zn().apex);
        crate::theory::cospans::lemma_cocomp_wf(g@, f@);
    }
    let f_l2 = slice::reindex_coslice_mor(f, &outer.fwd);
    let theta = slice::co_theta_comp(f, g, &outer.cod.forward);
    let fwd = slice::cocompose(&theta, &slice::cocompose(&f_l2, &inner.fwd));
    let theta_b = slice::co_theta_comp(f, g, &outer.cod.backward);
    let theta_inv = CosliceMor {
        dom: theta_b.cod.clone(),
        cod: theta_b.dom.clone(),
        map: finset::inverse(&theta_b.map),
    };
    let f_r2 = slice::reindex_coslice_mor(f, &outer.bwd);
    let bwd = slice::cocompose(&inner.bwd, &slice::cocompose(&f_r2, &theta_inv));
    PrismWitness { dom: inner.dom.clone(), cod: outer.cod.clone(), cospan: span::cocompose(g, f), fwd, bwd }
}

/// A normal-form prism: `back: Y' → X'` and `fwd: X → X' ⊔_B Y` under `A`.
#[derive(Eq, Debug)]
pub struct DPrism {
    pub dom: CoFamily,
    pub cod: CoFamily,
    pub back: Mor,
    pub fwd: CosliceMor,
}

impl View for DPrism {
    type V = Prism;

    open spec fn view(&self) -> Prism {
        Prism { dom: self.dom@, cod: self.cod@, back: self.back@, fwd: self.fwd@ }
    }
}

impl Clone for DPrism {
    fn clone(&self) -> (r: DPrism)
        ensures
            r@ == self@,
    {
        DPrism { dom: self.dom.clone(), cod: self.cod.clone(), back: self.back.clone(), fwd: self.fwd.clone() }
    }
}

impl PartialEq for DPrism {
    fn eq(&self, other: &DPrism) -> (r: bool) {
        self.dom == other.dom && self.cod == other.cod && self.back == other.back && self.fwd == other.fwd
    }
}

impl vstd::std_specs::cmp::PartialEqSpecImpl for DPrism {
    open spec fn obeys_eq_spec() -> bool {
        true
    }

    open spec fn eq_spec(&self, other: &DPrism) -> bool {
        self@ == other@
    }
}

/// `X' ⊔_B Y` fits in a machine word.
pub open spec fn match_fits(dom: CoFam, cod: CoFam) -> bool {
    cod.forward.total + dom.backward.total <= u32::MAX
}

impl DPrism {
    pub open spec fn wf(&self) -> bool {
        self@.wf()
    }

    /// Whether the back map joins the backward totals and the forward map is a
    /// coslice morphism `X → X' ⊔_B Y`.
    pub fn check(&self) -> (ok: bool)
        requires
            match_fits(self.dom@, self.cod@),
        ensures
            ok == self.wf(),
    {
        if !(self.dom.check() && self.cod.check() && self.back.check() && self.back.dom == self.cod.backward.total
            && self.back.cod == self.dom.backward.total && self.fwd.check()) {
            return false;
        }
        self.fwd.dom == self.dom.forward && self.fwd.cod == match_codomain(&self.dom, &self.cod, &self.back)
    }
}

/// The cospan `A → X' ← B` of a back map.
pub fn embedded_cospan(dom: &CoFamily, cod: &CoFamily, back: &Mor) -> (r: Cospan)
    requires
        dom.wf(),
        cod.wf(),
        back@.hom(cod@.backward.total, dom@.backward.total),
    ensures
        r@ == crate::theory::prisms::prism_cospan(dom@, cod@, back@),
        r.wf(),
{
    Cospan {
        left: dom.forward.base,
        right: cod.forward.base,
        apex: dom.backward.total,
        from_left: dom.backward.leg.clone(),
        from_right: finset::compose(back, &cod.backward.leg),
    }
}

/// `X' ⊔_B Y`, with the same element order as reindexing along [`embedded_cospan`].
pub fn match_codomain(dom: &CoFamily, cod: &CoFamily, back: &Mor) -> (r: CosliceObj)
    requires
        dom.wf(),
        cod.wf(),
        back@.hom(cod@.backward.total, dom@.backward.total),
        match_fits(dom@, cod@),
    ensures
        r@ == crate::theory::prisms::prism_cospan(dom@, cod@, back@).push(cod@.forward),
        r.wf(),
{
    slice::reindex_coslice(&embedded_cospan(dom, cod, back), &cod.forward)
}

pub fn identity(dom: &CoFamily) -> (r: DPrism)
    requires
        dom.wf(),
        match_fits(dom@, dom@),
    ensures
        r@ == Prism::id(dom@),
        r.wf(),
{
    proof {
        crate::theory::prisms::lemma_prism_id(dom@);
    }
    let back = finset::id(dom.backward.total);
    let cod_obj = match_codomain(dom, dom, &back);
    // Reindexing pushes out `A → X` against `A → X'`, and `from_left` includes `X`.
    let po = finset::pushout(&dom.forward.leg, &finset::compose(&back, &dom.backward.leg));
    DPrism {
        dom: dom.clone(),
        cod: dom.clone(),
        back,
        fwd: CosliceMor { dom: dom.forward.clone(), cod: cod_obj, map: po.from_left },
    }
}

pub fn embed(prism: &DPrism) -> (r: PrismWitness)
    requires
        prism.wf(),
        prism.cod.backward.total + prism.dom.backward.total <= u32::MAX,
    ensures
        r@ == prism@.embed(),
        r.wf(),
{
    proof {
        crate::theory::prisms::lemma_prism_embed(prism@);
        crate::theory::prisms::lemma_prism(prism@);
        crate::theory::colimits::lemma_push(prism.cod@.backward.leg, prism@.cospan().from_right);
    }
    let cospan = embedded_cospan(&prism.dom, &prism.cod, &prism.back);
    let po_bwd = finset::pushout(&prism.cod.backward.leg, &cospan.from_right);
    let bwd_map = finset::pushout_mediator(
        &po_bwd,
        &prism.back,
        &finset::id(prism.dom.backward.total),
        prism.cod.backward.total,
    );
    let bwd_dom = slice::reindex_coslice(&cospan, &prism.cod.backward);
    PrismWitness {
        dom: prism.dom.clone(),
        cod: prism.cod.clone(),
        cospan,
        fwd: prism.fwd.clone(),
        bwd: CosliceMor { dom: bwd_dom, cod: prism.dom.backward.clone(), map: bwd_map },
    }
}

/// Yoneda reduction of a witness to the explicit form.
pub fn normalize(w: &PrismWitness) -> (r: DPrism)
    requires
        w.wf(),
        residual_fits(w@),
        match_fits(w.dom@, w.cod@),
    ensures
        r@ == w@.normal(),
        r.wf(),
{
    let ghost n = w@.normal();
    proof {
        crate::theory::prisms::lemma_pwit(w@);
        crate::theory::coslices::lemma_push_wf(w.cospan@, w.cod@.forward);
        crate::theory::coslices::lemma_push_wf(w.cospan@, w.cod@.backward);
        crate::theory::coslices::lemma_push_wf(n.cospan(), w.cod@.forward);
        crate::theory::coslices::lemma_co_act(w@.collapse(), w.cospan@, n.cospan(), w.cod@.forward);
        crate::theory::colimits::lemma_push(w.cod@.forward.leg, w.cospan@.from_right);
    }
    let po_bwd = finset::pushout(&w.cod.backward.leg, &w.cospan.from_right);
    let back = finset::compose(&w.bwd.map, &po_bwd.from_left);
    let alpha = finset::compose(&w.bwd.map, &po_bwd.from_right);
    let target = finset::pushout(&w.cod.forward.leg, &finset::compose(&back, &w.cod.backward.leg));
    let source = finset::pushout(&w.cod.forward.leg, &w.cospan.from_right);
    let m_to_target = finset::compose(&target.from_right, &alpha);
    let fold = finset::pushout_mediator(&source, &target.from_left, &m_to_target, w.cod.forward.total);
    let fwd_map = finset::compose(&fold, &w.fwd.map);
    let fwd_cod = match_codomain(&w.dom, &w.cod, &back);
    DPrism {
        dom: w.dom.clone(),
        cod: w.cod.clone(),
        back,
        fwd: CosliceMor { dom: w.dom.forward.clone(), cod: fwd_cod, map: fwd_map },
    }
}

/// Everything that composing the two prisms builds fits in machine words.
pub open spec fn comp_fits(outer: Prism, inner: Prism) -> bool {
    &&& outer.cod.backward.total + outer.dom.backward.total <= u32::MAX
    &&& inner.cod.backward.total + inner.dom.backward.total <= u32::MAX
    &&& witness_comp_fits(outer.embed(), inner.embed())
    &&& residual_fits(PWit::comp(outer.embed(), inner.embed()))
    &&& match_fits(inner.dom, outer.cod)
}

/// Composition of the embedded witnesses, normalised.
pub fn compose(outer: &DPrism, inner: &DPrism) -> (r: DPrism)
    requires
        outer.wf(),
        inner.wf(),
        inner.cod@ == outer.dom@,
        comp_fits(outer@, inner@),
    ensures
        r@ == Prism::comp(outer@, inner@),
        r.wf(),
{
    let a = embed(outer);
    let b = embed(inner);
    let w = witness_compose(&a, &b);
    proof {
        crate::theory::prisms::law_prism_normalize_compose(a@, b@);
        crate::theory::prisms::law_prism_normalize_embed(outer@);
        crate::theory::prisms::law_prism_normalize_embed(inner@);
    }
    normalize(&w)
}

/// The families over one base that two lists of coslices make, row by row.
pub open spec fn family_row(objs: Seq<crate::theory::coslices::Under>, i: int) -> Seq<CoFam> {
    let rest = objs.filter(|o: crate::theory::coslices::Under| o.base == objs[i].base);
    Seq::new(rest.len(), |j: int| CoFam { forward: objs[i], backward: rest[j] })
}

/// The families of coslices with base and totals below `n`, in order.
pub open spec fn all_families(n: int) -> Seq<CoFam> {
    let objs = slice::all_coslices(n);
    crate::theory::listing::cat(objs.len() as int, |i: int| family_row(objs, i))
}

proof fn lemma_families_distinct(n: int)
    ensures
        all_families(n).no_duplicates(),
{
    let objs = slice::all_coslices(n);
    slice::law_all_coslices(n);
    let f = |i: int| family_row(objs, i);
    assert forall|i: int| 0 <= i < objs.len() implies (#[trigger] f(i)).no_duplicates() by {
        let keep = |o: crate::theory::coslices::Under| o.base == objs[i].base;
        crate::theory::listing::lemma_filter_distinct(objs, keep);
        let (row, rest) = (f(i), objs.filter(keep));
        assert forall|k: int, m: int| 0 <= k < row.len() && 0 <= m < row.len() && k != m implies row[k] != row[m] by {
            assert(row[k].backward == rest[k] && row[m].backward == rest[m]);
        }
    }
    crate::theory::listing::lemma_cat_labelled(objs.len() as int, f, |x: CoFam| x.forward, |i: int| objs[i]);
}

/// Every family of coslices with base and totals below `n` is listed once, and
/// nothing else is.
pub proof fn law_all_families(n: int)
    ensures
        all_families(n).no_duplicates(),
        forall|x: CoFam| #[trigger] all_families(n).contains(x) <==> x.wf() && x.forward.base < n && x.forward.total < n
            && x.backward.total < n,
{
    lemma_families_distinct(n);
    let objs = slice::all_coslices(n);
    slice::law_all_coslices(n);
    let f = |i: int| family_row(objs, i);
    crate::theory::listing::lemma_cat(objs.len() as int, f);
    assert forall|x: CoFam| x.wf() && x.forward.base < n && x.forward.total < n && x.backward.total < n
        implies #[trigger] all_families(n).contains(x) by {
        assert(objs.contains(x.forward) && objs.contains(x.backward));
        let i = choose|i: int| 0 <= i < objs.len() && objs[i] == x.forward;
        let keep = |o: crate::theory::coslices::Under| o.base == objs[i].base;
        slice::lemma_filter_members(objs, keep);
        let rest = objs.filter(keep);
        assert(rest.contains(x.backward));
        let j = choose|j: int| 0 <= j < rest.len() && rest[j] == x.backward;
        assert(f(i)[j] == x);
        assert(f(i).contains(x));
    }
    assert forall|x: CoFam| #[trigger] all_families(n).contains(x) implies x.wf() && x.forward.base < n && x.forward.total
        < n && x.backward.total < n by {
        let all = all_families(n);
        let m = choose|m: int| 0 <= m < all.len() && all[m] == x;
        let i = choose|i: int| 0 <= i < objs.len() && (#[trigger] f(i)).contains(all[m]);
        let keep = |o: crate::theory::coslices::Under| o.base == objs[i].base;
        slice::lemma_filter_members(objs, keep);
        let row = f(i);
        let j = choose|j: int| 0 <= j < row.len() && row[j] == x;
        let rest = objs.filter(keep);
        assert(rest.contains(rest[j]));
        assert(objs.contains(objs[i]));
    }
}

pub fn families_up_to(max: u32) -> (r: Vec<CoFamily>)
    ensures
        crate::theory::listing::views(r@) == all_families(max + 1),
{
    let objs = slice::coslice_objects_up_to(max);
    let ghost os = slice::all_coslices(max + 1);
    let ghost f = |i: int| family_row(os, i);
    let mut out: Vec<CoFamily> = Vec::new();
    let mut i: usize = 0;
    assert(crate::theory::listing::views(out@) =~= crate::theory::listing::cat(0, f));
    while i < objs.len()
        invariant
            i <= objs.len(),
            os == crate::theory::listing::views(objs@),
            f == (|i: int| family_row(os, i)),
            crate::theory::listing::views(out@) == crate::theory::listing::cat(i as int, f),
        decreases objs.len() - i,
    {
        let ghost keep = |o: crate::theory::coslices::Under| o.base == os[i as int].base;
        let ghost done = crate::theory::listing::views(out@);
        let ghost here = os[i as int];
        let mut j: usize = 0;
        proof {
            reveal(Seq::filter);
            assert(os.take(0).filter(keep) =~= Seq::<crate::theory::coslices::Under>::empty());
            assert(done + Seq::<CoFam>::empty() =~= done);
            assert(with_forward(here, os.take(0).filter(keep)) =~= Seq::<CoFam>::empty());
        }
        while j < objs.len()
            invariant
                i < objs.len(),
                j <= objs.len(),
                os == crate::theory::listing::views(objs@),
                here == os[i as int],
                keep == (|o: crate::theory::coslices::Under| o.base == os[i as int].base),
                crate::theory::listing::views(out@) == done + with_forward(here, os.take(j as int).filter(keep)),
            decreases objs.len() - j,
        {
            proof {
                span::lemma_filter_step(os, j as int, keep);
                assert(os[i as int] == objs@[i as int]@);
                assert(os[j as int] == objs@[j as int]@);
            }
            if objs[i].base == objs[j].base {
                let x = CoFamily { forward: objs[i].clone(), backward: objs[j].clone() };
                proof {
                    crate::theory::listing::lemma_views_push(out@, x);
                    assert(done + with_forward(here, os.take(j + 1).filter(keep)) =~= (done + with_forward(
                        here,
                        os.take(j as int).filter(keep),
                    )).push(x@));
                }
                out.push(x);
            }
            j = j + 1;
        }
        proof {
            assert(os.take(j as int) =~= os);
            assert(with_forward(here, os.filter(keep)) =~= family_row(os, i as int));
        }
        i = i + 1;
    }
    out
}

/// The families with a fixed forward coslice.
pub open spec fn with_forward(forward: crate::theory::coslices::Under, rest: Seq<crate::theory::coslices::Under>) -> Seq<CoFam> {
    Seq::new(rest.len(), |j: int| CoFam { forward, backward: rest[j] })
}

/// The prisms with the given back map, in order of their forward maps.
pub open spec fn prisms_with_back(dom: CoFam, cod: CoFam, back: Fun) -> Seq<Prism> {
    let fs = slice::coslice_hom(dom.forward, crate::theory::prisms::prism_cospan(dom, cod, back).push(cod.forward));
    Seq::new(fs.len(), |k: int| Prism { dom, cod, back, fwd: fs[k] })
}

/// The normal-form prisms between two families, in order of their back maps.
pub open spec fn all_prisms(dom: CoFam, cod: CoFam) -> Seq<Prism> {
    let backs = span::all_funs(cod.backward.total, dom.backward.total);
    crate::theory::listing::cat(backs.len() as int, |i: int| prisms_with_back(dom, cod, backs[i]))
}

proof fn lemma_prisms_distinct(dom: CoFam, cod: CoFam)
    requires
        dom.wf(),
        cod.wf(),
    ensures
        all_prisms(dom, cod).no_duplicates(),
{
    let backs = span::all_funs(cod.backward.total, dom.backward.total);
    let f = |i: int| prisms_with_back(dom, cod, backs[i]);
    span::lemma_all_funs(cod.backward.total, dom.backward.total);
    assert forall|i: int| 0 <= i < backs.len() implies (#[trigger] f(i)).no_duplicates() by {
        assert(backs[i].hom(cod.backward.total, dom.backward.total));
        let c = crate::theory::prisms::prism_cospan(dom, cod, backs[i]);
        crate::theory::coslices::lemma_push_wf(c, cod.forward);
        slice::law_coslice_hom(dom.forward, c.push(cod.forward));
        let fs = slice::coslice_hom(dom.forward, c.push(cod.forward));
        let row = f(i);
        assert forall|k: int, m: int| 0 <= k < row.len() && 0 <= m < row.len() && k != m implies row[k] != row[m] by {
            assert(row[k].fwd == fs[k] && row[m].fwd == fs[m]);
        }
    }
    crate::theory::listing::lemma_cat_labelled(backs.len() as int, f, |p: Prism| p.back, |i: int| backs[i]);
}

/// Every prism is listed once, and nothing else is.
pub proof fn law_all_prisms(dom: CoFam, cod: CoFam)
    requires
        dom.wf(),
        cod.wf(),
    ensures
        all_prisms(dom, cod).no_duplicates(),
        forall|p: Prism| #[trigger] all_prisms(dom, cod).contains(p) <==> p.hom(dom, cod),
{
    lemma_prisms_distinct(dom, cod);
    let backs = span::all_funs(cod.backward.total, dom.backward.total);
    let f = |i: int| prisms_with_back(dom, cod, backs[i]);
    span::lemma_all_funs(cod.backward.total, dom.backward.total);
    crate::theory::listing::lemma_cat(backs.len() as int, f);
    assert forall|p: Prism| p.hom(dom, cod) implies #[trigger] all_prisms(dom, cod).contains(p) by {
        assert(backs.contains(p.back));
        let i = choose|i: int| 0 <= i < backs.len() && backs[i] == p.back;
        let c = p.cospan();
        crate::theory::coslices::lemma_push_wf(c, cod.forward);
        slice::law_coslice_hom(dom.forward, c.push(cod.forward));
        let fs = slice::coslice_hom(dom.forward, c.push(cod.forward));
        assert(fs.contains(p.fwd));
        let k = choose|k: int| 0 <= k < fs.len() && fs[k] == p.fwd;
        assert(f(i)[k] == p);
        assert(f(i).contains(p));
    }
    assert forall|p: Prism| #[trigger] all_prisms(dom, cod).contains(p) implies p.hom(dom, cod) by {
        let all = all_prisms(dom, cod);
        let m = choose|m: int| 0 <= m < all.len() && all[m] == p;
        let i = choose|i: int| 0 <= i < backs.len() && (#[trigger] f(i)).contains(all[m]);
        assert(backs[i].hom(cod.backward.total, dom.backward.total));
        let c = crate::theory::prisms::prism_cospan(dom, cod, backs[i]);
        crate::theory::coslices::lemma_push_wf(c, cod.forward);
        slice::law_coslice_hom(dom.forward, c.push(cod.forward));
        let fs = slice::coslice_hom(dom.forward, c.push(cod.forward));
        let row = f(i);
        let k = choose|k: int| 0 <= k < row.len() && row[k] == p;
        assert(fs.contains(fs[k]));
    }
}

pub fn hom(dom: &CoFamily, cod: &CoFamily) -> (r: Vec<DPrism>)
    requires
        dom.wf(),
        cod.wf(),
        match_fits(dom@, cod@),
    ensures
        crate::theory::listing::views(r@) == all_prisms(dom@, cod@),
        forall|k: int| 0 <= k < r@.len() ==> (#[trigger] r@[k]).wf(),
{
    let backs = finset::morphisms(cod.backward.total, dom.backward.total);
    let ghost bs = span::all_funs(cod@.backward.total, dom@.backward.total);
    let ghost f = |i: int| prisms_with_back(dom@, cod@, bs[i]);
    proof {
        assert(span::funs_of(backs@) =~= bs);
    }
    let mut out: Vec<DPrism> = Vec::new();
    let mut i: usize = 0;
    assert(crate::theory::listing::views(out@) =~= crate::theory::listing::cat(0, f));
    while i < backs.len()
        invariant
            i <= backs.len(),
            dom.wf(),
            cod.wf(),
            match_fits(dom@, cod@),
            bs == span::funs_of(backs@),
            forall|j: int| 0 <= j < backs@.len() ==> (#[trigger] backs@[j])@.hom(cod@.backward.total, dom@.backward.total),
            f == (|i: int| prisms_with_back(dom@, cod@, bs[i])),
            crate::theory::listing::views(out@) == crate::theory::listing::cat(i as int, f),
            forall|k: int| 0 <= k < out@.len() ==> (#[trigger] out@[k]).wf(),
        decreases backs.len() - i,
    {
        let back = backs[i].clone();
        assert(backs@[i as int]@.hom(cod@.backward.total, dom@.backward.total));
        let fwd_cod = match_codomain(dom, cod, &back);
        let fwds = slice::coslice_morphisms(&dom.forward, &fwd_cod);
        let ghost row = prisms_with_back(dom@, cod@, back@);
        let ghost done = crate::theory::listing::views(out@);
        let mut k: usize = 0;
        proof {
            assert(done + row.take(0) =~= done);
            assert(crate::theory::listing::views(fwds@).len() == fwds@.len());
        }
        while k < fwds.len()
            invariant
                k <= fwds.len(),
                dom.wf(),
                cod.wf(),
                back@.hom(cod@.backward.total, dom@.backward.total),
                row == prisms_with_back(dom@, cod@, back@),
                fwd_cod@ == crate::theory::prisms::prism_cospan(dom@, cod@, back@).push(cod@.forward),
                crate::theory::listing::views(fwds@) == slice::coslice_hom(dom.forward@, fwd_cod@),
                forall|j: int| 0 <= j < fwds@.len() ==> (#[trigger] fwds@[j]).wf(),
                crate::theory::listing::views(out@) == done + row.take(k as int),
                forall|j: int| 0 <= j < out@.len() ==> (#[trigger] out@[j]).wf(),
            decreases fwds.len() - k,
        {
            let x = DPrism { dom: dom.clone(), cod: cod.clone(), back: back.clone(), fwd: fwds[k].clone() };
            proof {
                crate::theory::listing::lemma_views_push(out@, x);
                assert(crate::theory::listing::views(fwds@)[k as int] == fwds@[k as int]@);
                assert(fwds@[k as int].wf());
                assert(x@ =~= row[k as int]);
                assert(done + row.take(k + 1) =~= (done + row.take(k as int)).push(x@));
            }
            out.push(x);
            k = k + 1;
        }
        assert(row.take(k as int) =~= row);
        i = i + 1;
    }
    out
}

/// The families behind a list.
pub open spec fn cofams(parts: Seq<CoFamily>) -> Seq<CoFam> {
    crate::theory::listing::views(parts)
}

/// Pointwise coproduct of spans `X ← A → X'`. Over the initial base the
/// forward fibre is initial and the backward fibre is terminal, so there is
/// exactly one prism out of the empty coproduct.
pub fn coproduct(parts: &[CoFamily]) -> (r: CoFamily)
    requires
        crate::theory::prisms::coparts_wf(cofams(parts@)),
        CoFam::sum(cofams(parts@)).forward.base <= u32::MAX,
        CoFam::sum(cofams(parts@)).forward.total <= u32::MAX,
        CoFam::sum(cofams(parts@)).backward.total <= u32::MAX,
    ensures
        r@ == CoFam::sum(cofams(parts@)),
        r.wf(),
{
    if parts.len() == 0 {
        let r = CoFamily {
            forward: CosliceObj { base: 0, total: 0, leg: finset::from_initial(0) },
            backward: CosliceObj { base: 0, total: 1, leg: finset::from_initial(1) },
        };
        return r;
    }
    let ghost ps = cofams(parts@);
    let ghost n = ps.len() as int;
    let ghost sum = CoFam::sum(ps);
    let ghost bs = crate::theory::prisms::cobases(ps);
    let ghost fs = crate::theory::prisms::coforwards(ps);
    let ghost ws = crate::theory::prisms::cobackwards(ps);
    proof {
        crate::theory::prisms::law_cosum_summands(ps);
        crate::theory::prisms::lemma_cosizes(ps);
    }
    let mut base: u32 = 0;
    let mut fwd: u32 = 0;
    let mut bwd: u32 = 0;
    let mut leg_f: Vec<u32> = Vec::new();
    let mut leg_b: Vec<u32> = Vec::new();
    let mut i: usize = 0;
    while i < parts.len()
        invariant
            i <= parts.len(),
            ps == cofams(parts@),
            n == ps.len(),
            n == parts@.len(),
            n > 0,
            sum == CoFam::sum(ps),
            bs == crate::theory::prisms::cobases(ps),
            fs == crate::theory::prisms::coforwards(ps),
            ws == crate::theory::prisms::cobackwards(ps),
            crate::theory::prisms::coparts_wf(ps),
            crate::theory::listing::sizes_ok(bs, n),
            crate::theory::listing::sizes_ok(fs, n),
            crate::theory::listing::sizes_ok(ws, n),
            sum.forward.base <= u32::MAX,
            sum.forward.total <= u32::MAX,
            sum.backward.total <= u32::MAX,
            base == crate::theory::listing::off(bs, i as int),
            fwd == crate::theory::listing::off(fs, i as int),
            bwd == crate::theory::listing::off(ws, i as int),
            leg_f@.len() == base,
            leg_b@.len() == base,
            forall|x: int| 0 <= x < base ==> leg_f@[x] == sum.forward.leg.map[x],
            forall|x: int| 0 <= x < base ==> leg_b@[x] == sum.backward.leg.map[x],
        decreases parts.len() - i,
    {
        let p = &parts[i];
        proof {
            assert(ps[i as int] == p@);
            assert(ps[i as int].wf());
            crate::theory::listing::lemma_off_mono(bs, n, i + 1, n);
            crate::theory::listing::lemma_off_mono(fs, n, i + 1, n);
            crate::theory::listing::lemma_off_mono(ws, n, i + 1, n);
            crate::theory::prisms::law_cosum_summands(ps);
        }
        let ghost f0 = leg_f@;
        let ghost b0 = leg_b@;
        crate::dlens::append_shifted(&mut leg_f, &p.forward.leg, fwd);
        crate::dlens::append_shifted(&mut leg_b, &p.backward.leg, bwd);
        proof {
            assert forall|x: int| 0 <= x < leg_f@.len() implies leg_f@[x] == sum.forward.leg.map[x] && leg_b@[x]
                == sum.backward.leg.map[x] by {
                if x >= base {
                    let k = x - base;
                    assert(leg_f@[f0.len() + k] == fwd + p.forward.leg@.map[k]);
                    assert(leg_b@[b0.len() + k] == bwd + p.backward.leg@.map[k]);
                    assert(sum.forward.leg.map[crate::theory::listing::off(bs, i as int) + k] == fwd + p.forward.leg@.map[k]);
                    assert(sum.backward.leg.map[crate::theory::listing::off(bs, i as int) + k] == bwd + p.backward.leg@.map[k]);
                }
            }
        }
        base = base + p.forward.base;
        fwd = fwd + p.forward.total;
        bwd = bwd + p.backward.total;
        i = i + 1;
    }
    let r = CoFamily {
        forward: CosliceObj { base, total: fwd, leg: Mor { dom: base, cod: fwd, map: leg_f } },
        backward: CosliceObj { base, total: bwd, leg: Mor { dom: base, cod: bwd, map: leg_b } },
    };
    assert(r@.forward =~= sum.forward);
    assert(r@.backward =~= sum.backward);
    r
}

} // verus!
