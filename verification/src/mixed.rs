//! Mixed optics as dependent optics on a one-object bicategory.
//!
//! Delooping `(FinSet, ×)` recovers classical lenses
//! `get: X → Y`, `put: X × Y' → X'`.
//! Delooping `(FinSet, ⊔)` recovers classical prisms
//! `build: Y' → X'`, `match: X → X' ⊔ Y`.
use vstd::prelude::*;
use crate::finset;
use crate::finset::Mor;
use crate::span;
use crate::theory::fun::Fun;
use crate::theory::limits::Prod;
use crate::theory::mixed::Pr;
use crate::theory::mixed::CLens;
use crate::theory::mixed::CPrism;

verus! {

#[derive(PartialEq, Eq, Debug, Structural)]
pub struct Pair {
    pub forward: u32,
    pub backward: u32,
}

impl Clone for Pair {
    fn clone(&self) -> (r: Pair)
        ensures
            r == *self,
    {
        Pair { forward: self.forward, backward: self.backward }
    }
}

impl View for Pair {
    type V = Pr;

    open spec fn view(&self) -> Pr {
        Pr { forward: self.forward as int, backward: self.backward as int }
    }
}

#[derive(Eq, Debug)]
pub struct Lens {
    pub dom: Pair,
    pub cod: Pair,
    pub get: Mor,
    pub put: Mor,
}

impl View for Lens {
    type V = CLens;

    open spec fn view(&self) -> CLens {
        CLens { dom: self.dom@, cod: self.cod@, get: self.get@, put: self.put@ }
    }
}

impl Clone for Lens {
    fn clone(&self) -> (r: Lens)
        ensures
            r@ == self@,
    {
        Lens { dom: self.dom.clone(), cod: self.cod.clone(), get: self.get.clone(), put: self.put.clone() }
    }
}

impl PartialEq for Lens {
    fn eq(&self, other: &Lens) -> (r: bool) {
        self.dom == other.dom && self.cod == other.cod && self.get == other.get && self.put == other.put
    }
}

impl vstd::std_specs::cmp::PartialEqSpecImpl for Lens {
    open spec fn obeys_eq_spec() -> bool {
        true
    }

    open spec fn eq_spec(&self, other: &Lens) -> bool {
        self@ == other@
    }
}

impl Lens {
    pub open spec fn wf(&self) -> bool {
        self@.wf()
    }

    /// Whether get and put join the sets that they must.
    pub fn check(&self) -> (ok: bool)
        ensures
            ok == self.wf(),
    {
        let prod = finset::product(self.dom.forward, self.cod.backward);
        self.get.dom == self.dom.forward && self.get.cod == self.cod.forward && self.put.dom == prod.obj && self.put.cod
            == self.dom.backward && self.get.check() && self.put.check()
    }
}

pub fn lens_id(dom: Pair) -> (r: Lens)
    ensures
        r@ == CLens::id(dom@),
{
    let prod = finset::product(dom.forward, dom.backward);
    Lens { cod: dom.clone(), get: finset::id(dom.forward), put: prod.snd, dom }
}

pub fn lens_compose(outer: &Lens, inner: &Lens) -> (r: Lens)
    requires
        outer.wf(),
        inner.wf(),
        inner.cod == outer.dom,
        outer@.fits(),
        inner@.fits(),
        inner.dom.forward * outer.cod.backward <= u32::MAX,
    ensures
        r@ == CLens::comp(outer@, inner@),
        r.wf(),
{
    let ghost c = CLens::comp(outer@, inner@);
    proof {
        crate::theory::mixed::lemma_clens_comp(outer@, inner@);
        crate::theory::mixed::lemma_clens(outer@);
        crate::theory::mixed::lemma_clens(inner@);
        assert(inner.dom.forward * outer.cod.backward >= 0) by (nonlinear_arith)
            requires inner.dom.forward >= 0, outer.cod.backward >= 0;
    }
    let get = finset::compose(&outer.get, &inner.get);
    let prod = finset::product(inner.dom.forward, outer.cod.backward);
    let mut map: Vec<u32> = Vec::new();
    let mut k: u32 = 0;
    while k < prod.obj
        invariant
            k <= prod.obj,
            outer.wf(),
            inner.wf(),
            inner.cod == outer.dom,
            outer@.fits(),
            inner@.fits(),
            c == CLens::comp(outer@, inner@),
            prod@ == Prod::of(inner.dom.forward as int, outer.cod.backward as int),
            prod.obj == inner.dom.forward * outer.cod.backward,
            forall|x: int, y: int| 0 <= x < outer.dom.forward && 0 <= y < outer.cod.backward ==> 0 <= #[trigger] outer@.put_at(
                x,
                y,
            ) < outer.dom.backward,
            map@.len() == k,
            forall|j: int| 0 <= j < k ==> map@[j] == c.put.map[j],
        decreases prod.obj - k,
    {
        proof {
            crate::theory::limits::lemma_unpair(inner.dom.forward as int, outer.cod.backward as int, k as int);
        }
        let x: u32 = prod.fst.apply(k);
        let z: u32 = prod.snd.apply(k);
        let y: u32 = inner.get.apply(x);
        proof {
            crate::theory::limits::lemma_pair_index(outer.dom.forward as int, outer.cod.backward as int, y as int, z as int);
        }
        let yz: u32 = finset::pair_index(outer.cod.backward, y, z);
        let y_prime: u32 = outer.put.apply(yz);
        proof {
            assert(0 <= outer@.put_at(y as int, z as int) < outer.dom.backward);
            crate::theory::limits::lemma_pair_index(
                inner.dom.forward as int,
                inner.cod.backward as int,
                x as int,
                y_prime as int,
            );
        }
        let xy: u32 = finset::pair_index(inner.cod.backward, x, y_prime);
        map.push(inner.put.apply(xy));
        k = k + 1;
    }
    let put = Mor { dom: prod.obj, cod: inner.dom.backward, map };
    assert(put@ =~= c.put);
    Lens { dom: inner.dom.clone(), cod: outer.cod.clone(), get, put }
}

/// A witness for the cartesian action: residual `M`, `l: X → M × Y`, `r: M × Y' → X'`.
#[derive(Clone, Debug)]
pub struct LensWitness {
    pub residual: u32,
    pub fwd: Mor,
    pub bwd: Mor,
}

/// Residual `X`, with `fwd(x) = (x, get(x))` and the put as `bwd`.
pub fn embed_lens(lens: &Lens) -> (r: LensWitness)
    requires
        lens.wf(),
        lens.dom.forward * lens.cod.forward <= u32::MAX,
    ensures
        r.residual == lens.dom.forward,
        r.fwd@ == lens@.embed_fwd(),
        r.bwd@ == lens@.put,
{
    let ids = finset::id(lens.dom.forward);
    proof {
        assert forall|z: int| 0 <= z < ids.dom implies #[trigger] ids@.map[z] * lens.get.cod + lens.get@.map[z] <= u32::MAX by {
            crate::theory::limits::lemma_pair_index(lens.dom.forward as int, lens.cod.forward as int, z, lens.get@.map[z]);
        }
    }
    LensWitness { residual: lens.dom.forward, fwd: finset::pair(&ids, &lens.get), bwd: lens.put.clone() }
}

pub fn normalize_lens(dom: &Pair, cod: &Pair, w: &LensWitness) -> (r: Lens)
    requires
        w.fwd@.hom(dom.forward as int, w.residual * cod.forward),
        w.bwd@.hom(w.residual * cod.backward, dom.backward as int),
        w.residual * cod.forward <= u32::MAX,
        w.residual * cod.backward <= u32::MAX,
        dom.forward * cod.backward <= u32::MAX,
    ensures
        r@ == CLens::normal(dom@, cod@, w.residual as int, w.fwd@, w.bwd@),
{
    let ghost n = CLens::normal(dom@, cod@, w.residual as int, w.fwd@, w.bwd@);
    let prod_y = finset::product(w.residual, cod.forward);
    proof {
        crate::theory::limits::law_product(
            w.residual as int,
            cod.forward as int,
            Fun { dom: 0, cod: w.residual as int, map: Seq::empty() },
            Fun { dom: 0, cod: cod.forward as int, map: Seq::empty() },
        );
        assert(dom.forward * cod.backward >= 0) by (nonlinear_arith) requires dom.forward >= 0, cod.backward >= 0;
        assert(w.residual * cod.backward >= 0) by (nonlinear_arith) requires w.residual >= 0, cod.backward >= 0;
    }
    let get = finset::compose(&prod_y.snd, &w.fwd);
    let t = finset::compose(&prod_y.fst, &w.fwd);
    let prod_put = finset::product(dom.forward, cod.backward);
    // (x, y') ↦ (t(x), y')
    let mut into: Vec<u32> = Vec::new();
    let mut k: u32 = 0;
    while k < prod_put.obj
        invariant
            k <= prod_put.obj,
            prod_put@ == Prod::of(dom.forward as int, cod.backward as int),
            prod_put.obj == dom.forward * cod.backward,
            w.residual * cod.backward <= u32::MAX,
            t@.hom(dom.forward as int, w.residual as int),
            into@.len() == k,
            forall|j: int| 0 <= j < k ==> into@[j] == t@.map[j / cod.backward as int] * cod.backward + j % cod.backward as int,
            forall|j: int| 0 <= j < k ==> #[trigger] into@[j] < w.residual * cod.backward,
        decreases prod_put.obj - k,
    {
        proof {
            crate::theory::limits::lemma_unpair(dom.forward as int, cod.backward as int, k as int);
        }
        let x: u32 = prod_put.fst.apply(k);
        let y: u32 = prod_put.snd.apply(k);
        let m: u32 = t.apply(x);
        proof {
            crate::theory::limits::lemma_pair_index(w.residual as int, cod.backward as int, m as int, y as int);
        }
        into.push(finset::pair_index(cod.backward, m, y));
        k = k + 1;
    }
    let prod_m: u32 = w.bwd.dom;
    let through = Mor { dom: prod_put.obj, cod: prod_m, map: into };
    let put = finset::compose(&w.bwd, &through);
    proof {
        assert(put@ =~= n.put) by {
            assert forall|j: int| 0 <= j < prod_put.obj implies put@.map[j] == n.put.map[j] by {
                crate::theory::limits::lemma_unpair(dom.forward as int, cod.backward as int, j);
                assert(through@.map[j] == into@[j]);
            }
        }
    }
    Lens { dom: dom.clone(), cod: cod.clone(), get, put }
}

/// The lenses between two pairs, in order.
pub open spec fn all_lenses(dom: Pr, cod: Pr) -> Seq<CLens> {
    let xs = span::all_funs(dom.forward, cod.forward);
    let ys = span::all_funs(crate::theory::fun::sat_mul(dom.forward, cod.backward), dom.backward);
    crate::theory::listing::cat(xs.len() as int, |i: int| Seq::new(ys.len(), |j: int| CLens { dom: dom, cod: cod, get: xs[i], put: ys[j] }))
}

pub fn lens_hom(dom: &Pair, cod: &Pair) -> (r: Vec<Lens>)
    ensures
        crate::theory::listing::views(r@) == all_lenses(dom@, cod@),
{
    let xs = finset::morphisms(dom.forward, cod.forward);
    let ys = finset::morphisms(finset::product(dom.forward, cod.backward).obj, dom.backward);
    let ghost fx = span::all_funs(dom@.forward, cod@.forward);
    let ghost fy = span::all_funs(crate::theory::fun::sat_mul(dom@.forward, cod@.backward), dom@.backward);
    let ghost block = |i: int| Seq::new(fy.len(), |j: int| CLens { dom: dom@, cod: cod@, get: fx[i], put: fy[j] });
    proof {
        assert(span::funs_of(xs@) =~= fx);
        assert(span::funs_of(ys@) =~= fy);
    }
    let mut out: Vec<Lens> = Vec::new();
    let mut i: usize = 0;
    assert(crate::theory::listing::views(out@) =~= crate::theory::listing::cat(0, block));
    while i < xs.len()
        invariant
            i <= xs.len(),
            fx == span::funs_of(xs@),
            fy == span::funs_of(ys@),
            block == (|i: int| Seq::new(fy.len(), |j: int| CLens { dom: dom@, cod: cod@, get: fx[i], put: fy[j] })),
            crate::theory::listing::views(out@) == crate::theory::listing::cat(i as int, block),
        decreases xs.len() - i,
    {
        let ghost done = crate::theory::listing::views(out@);
        let mut j: usize = 0;
        assert(done + block(i as int).take(0) =~= done);
        while j < ys.len()
            invariant
                i < xs.len(),
                j <= ys.len(),
                fx == span::funs_of(xs@),
                fy == span::funs_of(ys@),
                block == (|i: int| Seq::new(fy.len(), |j: int| CLens { dom: dom@, cod: cod@, get: fx[i], put: fy[j] })),
                crate::theory::listing::views(out@) == done + block(i as int).take(j as int),
            decreases ys.len() - j,
        {
            let x = Lens { dom: dom.clone(), cod: cod.clone(), get: xs[i].clone(), put: ys[j].clone() };
            proof {
                crate::theory::listing::lemma_views_push(out@, x);
                assert(x@ =~= block(i as int)[j as int]);
                assert(done + block(i as int).take(j + 1) =~= (done + block(i as int).take(j as int)).push(x@));
            }
            out.push(x);
            j = j + 1;
        }
        assert(block(i as int).take(j as int) =~= block(i as int));
        i = i + 1;
    }
    out
}

#[derive(Eq, Debug)]
pub struct Prism {
    pub dom: Pair,
    pub cod: Pair,
    /// `Y' → X'`.
    pub build: Mor,
    /// `X → X' ⊔ Y`.
    pub match_: Mor,
}

impl View for Prism {
    type V = CPrism;

    open spec fn view(&self) -> CPrism {
        CPrism { dom: self.dom@, cod: self.cod@, build: self.build@, mat: self.match_@ }
    }
}

impl Clone for Prism {
    fn clone(&self) -> (r: Prism)
        ensures
            r@ == self@,
    {
        Prism { dom: self.dom.clone(), cod: self.cod.clone(), build: self.build.clone(), match_: self.match_.clone() }
    }
}

impl PartialEq for Prism {
    fn eq(&self, other: &Prism) -> (r: bool) {
        self.dom == other.dom && self.cod == other.cod && self.build == other.build && self.match_ == other.match_
    }
}

impl vstd::std_specs::cmp::PartialEqSpecImpl for Prism {
    open spec fn obeys_eq_spec() -> bool {
        true
    }

    open spec fn eq_spec(&self, other: &Prism) -> bool {
        self@ == other@
    }
}

impl Prism {
    pub open spec fn wf(&self) -> bool {
        self@.wf()
    }

    /// Whether build and match join the sets that they must.
    pub fn check(&self) -> (ok: bool)
        requires
            self.dom.backward + self.cod.forward <= u32::MAX,
        ensures
            ok == self.wf(),
    {
        self.build.dom == self.cod.backward && self.build.cod == self.dom.backward && self.match_.dom == self.dom.forward
            && self.match_.cod == self.dom.backward + self.cod.forward && self.build.check() && self.match_.check()
    }
}

pub fn prism_id(dom: Pair) -> (r: Prism)
    requires
        dom.backward + dom.forward <= u32::MAX,
    ensures
        r@ == CPrism::id(dom@),
{
    let sum = finset::coproduct(dom.backward, dom.forward);
    Prism { cod: dom.clone(), build: finset::id(dom.backward), match_: sum.inr, dom }
}

pub fn prism_compose(outer: &Prism, inner: &Prism) -> (r: Prism)
    requires
        outer.wf(),
        inner.wf(),
        inner.cod == outer.dom,
        inner.dom.backward + outer.cod.forward <= u32::MAX,
        outer.dom.backward + outer.cod.forward <= u32::MAX,
        inner.dom.backward + inner.cod.forward <= u32::MAX,
    ensures
        r@ == CPrism::comp(outer@, inner@),
        r.wf(),
{
    proof {
        crate::theory::mixed::lemma_cprism_comp(outer@, inner@);
    }
    let build = finset::compose(&inner.build, &outer.build);
    let target = finset::coproduct(inner.dom.backward, outer.cod.forward);
    // Y → Y' ⊔ Z → X' ⊔ Z, then copair with X' → X' ⊔ Z.
    let left = finset::compose(&target.inl, &inner.build);
    let fold = finset::copair(&left, &target.inr);
    proof {
        crate::theory::colimits::law_coproduct(left@, target.inr@);
    }
    let y_to = finset::compose(&fold, &outer.match_);
    let step = finset::copair(&target.inl, &y_to);
    proof {
        crate::theory::colimits::law_coproduct(target.inl@, y_to@);
    }
    Prism { dom: inner.dom.clone(), cod: outer.cod.clone(), build, match_: finset::compose(&step, &inner.match_) }
}

/// The pairs of cardinalities up to `max`, in order.
pub fn pairs_up_to(max: u32) -> (r: Vec<Pair>)
    ensures
        r@ == crate::theory::listing::cat(
            max + 1,
            |f: int| Seq::new((max + 1) as nat, |b: int| Pair { forward: f as u32, backward: b as u32 }),
        ),
{
    let cards = finset::objects_up_to(max);
    let ghost block = |f: int| Seq::new((max + 1) as nat, |b: int| Pair { forward: f as u32, backward: b as u32 });
    let mut out: Vec<Pair> = Vec::new();
    let mut i: usize = 0;
    assert(out@ =~= crate::theory::listing::cat(0, block));
    while i < cards.len()
        invariant
            i <= cards.len(),
            cards@ == Seq::new(max as nat + 1, |k: int| k as u32),
            block == (|f: int| Seq::new((max + 1) as nat, |b: int| Pair { forward: f as u32, backward: b as u32 })),
            out@ == crate::theory::listing::cat(i as int, block),
        decreases cards.len() - i,
    {
        let ghost done = out@;
        let mut j: usize = 0;
        assert(done + block(i as int).take(0) =~= done);
        while j < cards.len()
            invariant
                i < cards.len(),
                j <= cards.len(),
                cards@ == Seq::new(max as nat + 1, |k: int| k as u32),
                block == (|f: int| Seq::new((max + 1) as nat, |b: int| Pair { forward: f as u32, backward: b as u32 })),
                out@ == done + block(i as int).take(j as int),
            decreases cards.len() - j,
        {
            let p = Pair { forward: cards[i], backward: cards[j] };
            assert(block(i as int)[j as int] == p);
            assert(done + block(i as int).take(j + 1) =~= (done + block(i as int).take(j as int)).push(p));
            out.push(p);
            j = j + 1;
        }
        assert(block(i as int).take(j as int) =~= block(i as int));
        i = i + 1;
    }
    out
}

/// The prisms between two pairs, in order.
pub open spec fn all_prisms(dom: Pr, cod: Pr) -> Seq<CPrism> {
    let xs = span::all_funs(cod.backward, dom.backward);
    let ys = span::all_funs(dom.forward, dom.backward + cod.forward);
    crate::theory::listing::cat(xs.len() as int, |i: int| Seq::new(ys.len(), |j: int| CPrism { dom: dom, cod: cod, build: xs[i], mat: ys[j] }))
}

pub fn prism_hom(dom: &Pair, cod: &Pair) -> (r: Vec<Prism>)
    requires
        dom.backward + cod.forward <= u32::MAX,
    ensures
        crate::theory::listing::views(r@) == all_prisms(dom@, cod@),
{
    let xs = finset::morphisms(cod.backward, dom.backward);
    let ys = finset::morphisms(dom.forward, dom.backward + cod.forward);
    let ghost fx = span::all_funs(cod@.backward, dom@.backward);
    let ghost fy = span::all_funs(dom@.forward, dom@.backward + cod@.forward);
    let ghost block = |i: int| Seq::new(fy.len(), |j: int| CPrism { dom: dom@, cod: cod@, build: fx[i], mat: fy[j] });
    proof {
        assert(span::funs_of(xs@) =~= fx);
        assert(span::funs_of(ys@) =~= fy);
    }
    let mut out: Vec<Prism> = Vec::new();
    let mut i: usize = 0;
    assert(crate::theory::listing::views(out@) =~= crate::theory::listing::cat(0, block));
    while i < xs.len()
        invariant
            i <= xs.len(),
            fx == span::funs_of(xs@),
            fy == span::funs_of(ys@),
            block == (|i: int| Seq::new(fy.len(), |j: int| CPrism { dom: dom@, cod: cod@, build: fx[i], mat: fy[j] })),
            crate::theory::listing::views(out@) == crate::theory::listing::cat(i as int, block),
        decreases xs.len() - i,
    {
        let ghost done = crate::theory::listing::views(out@);
        let mut j: usize = 0;
        assert(done + block(i as int).take(0) =~= done);
        while j < ys.len()
            invariant
                i < xs.len(),
                j <= ys.len(),
                fx == span::funs_of(xs@),
                fy == span::funs_of(ys@),
                block == (|i: int| Seq::new(fy.len(), |j: int| CPrism { dom: dom@, cod: cod@, build: fx[i], mat: fy[j] })),
                crate::theory::listing::views(out@) == done + block(i as int).take(j as int),
            decreases ys.len() - j,
        {
            let x = Prism { dom: dom.clone(), cod: cod.clone(), build: xs[i].clone(), match_: ys[j].clone() };
            proof {
                crate::theory::listing::lemma_views_push(out@, x);
                assert(x@ =~= block(i as int)[j as int]);
                assert(done + block(i as int).take(j + 1) =~= (done + block(i as int).take(j as int)).push(x@));
            }
            out.push(x);
            j = j + 1;
        }
        assert(block(i as int).take(j as int) =~= block(i as int));
        i = i + 1;
    }
    out
}

} // verus!
