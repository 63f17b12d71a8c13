//! Dependent lenses.
//!
//! Objects are cospans `X → A ← X'`. A witness is a span with two slice
//! maps. The normal form is a summand of
//!
//! ```text
//! ⨿_{get: X → Y} C/A(X ×_B Y', X')
//! ```
//!
//! The base is lextensive, so dependent lenses have finite coproducts, computed
//! pointwise on the cospan.
use vstd::prelude::*;
use crate::finset;
use crate::finset::Mor;
use crate::optic::Family;
use crate::optic::Witness;
use crate::slice;
use crate::slice::SliceMor;
use crate::slice::SliceObj;
use crate::span;
use crate::span::Span;
use crate::theory::fun::Fun;
use crate::theory::optics::Fam;
use crate::theory::optics::Lens;

verus! {

/// A normal form: a get of total spaces and a put over `A`.
#[derive(Eq, Debug)]
pub struct DLens {
    pub dom: Family,
    pub cod: Family,
    /// `X → Y` on total spaces.
    pub get: Mor,
    /// `X ×_B Y' → X'` over `A`.
    pub put: SliceMor,
}

impl View for DLens {
    type V = Lens;

    open spec fn view(&self) -> Lens {
        Lens { dom: self.dom@, cod: self.cod@, get: self.get@, put: self.put@ }
    }
}

impl Clone for DLens {
    fn clone(&self) -> (r: DLens)
        ensures
            r@ == self@,
    {
        DLens { dom: self.dom.clone(), cod: self.cod.clone(), get: self.get.clone(), put: self.put.clone() }
    }
}

impl PartialEq for DLens {
    fn eq(&self, other: &DLens) -> (r: bool) {
        self.dom == other.dom && self.cod == other.cod && self.get == other.get && self.put == other.put
    }
}

impl vstd::std_specs::cmp::PartialEqSpecImpl for DLens {
    open spec fn obeys_eq_spec() -> bool {
        true
    }

    open spec fn eq_spec(&self, other: &DLens) -> bool {
        self@ == other@
    }
}

impl DLens {
    pub open spec fn wf(&self) -> bool {
        self@.wf()
    }

    /// Whether the get joins the total spaces and the put is a slice morphism
    /// `X ×_B Y' → X'` over `A`.
    pub fn check(&self) -> (ok: bool)
        requires
            self@.pb().apex <= u32::MAX,
        ensures
            ok == self.wf(),
    {
        if !(self.dom.check() && self.cod.check() && self.get.check() && self.get.dom == self.dom.forward.total
            && self.get.cod == self.cod.forward.total && self.put.check()) {
            return false;
        }
        let domain = put_domain(&self.dom, &self.cod, &self.get);
        self.put.cod == self.dom.backward && self.put.dom == domain.0
    }
}

/// `X ×_B Y'` as a slice over `A`, and as a pullback.
pub fn put_domain(dom: &Family, cod: &Family, get: &Mor) -> (r: (SliceObj, finset::Pullback))
    requires
        dom.wf(),
        cod.wf(),
        get@.hom(dom@.forward.total, cod@.forward.total),
        crate::theory::optics::get_span(dom@, cod@, get@).fib(cod@.backward).apex <= u32::MAX,
    ensures
        r.0@ == crate::theory::optics::get_span(dom@, cod@, get@).pull(cod@.backward),
        r.1@ == crate::theory::optics::get_span(dom@, cod@, get@).fib(cod@.backward),
        r.0.wf(),
        r.1.pairs@.len() <= u32::MAX,
{
    let ghost s = crate::theory::optics::get_span(dom@, cod@, get@);
    let x_to_b = finset::compose(&cod.forward.leg, get);
    proof {
        crate::theory::slices::lemma_pull_wf(s, cod@.backward);
        crate::theory::limits::lemma_pull(s.to_right, cod@.backward.leg);
    }
    let pb = finset::pullback(&x_to_b, &cod.backward.leg);
    proof {
        assert(finset::int_pairs(pb.pairs@).len() == pb.pairs@.len());
    }
    let obj = SliceObj {
        base: dom.forward.base,
        total: pb.apex,
        leg: finset::compose(&dom.forward.leg, &pb.to_left),
    };
    (obj, pb)
}

/// Identity lens: `get = id`, `put = π₂`.
pub fn identity(dom: &Family) -> (r: DLens)
    requires
        dom.wf(),
        Lens::id(dom@).pb().apex <= u32::MAX,
    ensures
        r@ == Lens::id(dom@),
        r.wf(),
{
    proof {
        crate::theory::optics::lemma_lens_id(dom@);
    }
    let get = finset::id(dom.forward.total);
    let domain = put_domain(dom, dom, &get);
    DLens {
        dom: dom.clone(),
        cod: dom.clone(),
        get,
        put: SliceMor { dom: domain.0, cod: dom.backward.clone(), map: domain.1.to_right },
    }
}

/// `put(x, y')`.
pub fn put_apply(lens: &DLens, pb: &finset::Pullback, x: u32, y: u32) -> (r: u32)
    requires
        lens.wf(),
        pb@ == lens@.pb(),
        pb.pairs@.len() <= u32::MAX,
        x < lens.dom.forward.total,
        y < lens.cod.backward.total,
        lens.cod@.forward.leg.map[lens@.get.map[x as int]] == lens.cod@.backward.leg.map[y as int],
    ensures
        r == lens@.put_at(x as int, y as int),
        r < lens.dom.backward.total,
        lens.dom@.backward.leg.map[r as int] == lens.dom@.forward.leg.map[x as int],
{
    proof {
        crate::theory::optics::lemma_lens(lens@);
        crate::theory::optics::lemma_put_listed(lens@, x as int, y as int);
    }
    let k: u32 = finset::pair_position(pb, x, y);
    proof {
        assert(0 <= lens@.put_at(x as int, y as int) < lens.dom.backward.total);
    }
    lens.put.map.apply(k)
}

/// `get = get₂ ∘ get₁` and `put(x, z') = put₁(x, put₂(get₁(x), z'))`.
pub fn compose(outer: &DLens, inner: &DLens) -> (r: DLens)
    requires
        outer.wf(),
        inner.wf(),
        inner.cod@ == outer.dom@,
        Lens::comp(outer@, inner@).pb().apex <= u32::MAX,
    ensures
        r@ == Lens::comp(outer@, inner@),
        r.wf(),
{
    let ghost c = Lens::comp(outer@, inner@);
    proof {
        crate::theory::optics::lemma_lens_comp(outer@, inner@);
        crate::theory::optics::lemma_lens(outer@);
        crate::theory::optics::lemma_lens(inner@);
        crate::theory::optics::lemma_lens(c);
    }
    let get = finset::compose(&outer.get, &inner.get);
    let domain = put_domain(&inner.dom, &outer.cod, &get);
    let pb = domain.1;
    let pb_outer = put_domain(&outer.dom, &outer.cod, &outer.get).1;
    let pb_inner = put_domain(&inner.dom, &inner.cod, &inner.get).1;
    let mut map: Vec<u32> = Vec::new();
    let mut k: u32 = 0;
    while k < pb.apex
        invariant
            k <= pb.apex,
            outer.wf(),
            inner.wf(),
            inner.cod@ == outer.dom@,
            c == Lens::comp(outer@, inner@),
            c.wf(),
            c.get == outer@.get.o(inner@.get),
            pb@ == c.pb(),
            pb_outer@ == outer@.pb(),
            pb_inner@ == inner@.pb(),
            pb_outer.pairs@.len() <= u32::MAX,
            pb_inner.pairs@.len() <= u32::MAX,
            pb@.to_left.hom(pb.apex as int, inner.dom@.forward.total),
            pb@.to_right.hom(pb.apex as int, outer.cod@.backward.total),
            map@.len() == k,
            forall|j: int| 0 <= j < k ==> map@[j] == c.put.map.map[j],
        decreases pb.apex - k,
    {
        let x: u32 = pb.to_left.apply(k);
        let z: u32 = pb.to_right.apply(k);
        let y: u32 = inner.get.apply(x);
        proof {
            crate::theory::optics::lemma_lens(c);
            assert(c.pb().to_left.map[k as int] == x && c.pb().to_right.map[k as int] == z);
            assert(c.get.map[x as int] == outer@.get.map[y as int]);
        }
        let y_prime: u32 = put_apply(outer, &pb_outer, y, z);
        let v: u32 = put_apply(inner, &pb_inner, x, y_prime);
        map.push(v);
        k = k + 1;
    }
    let put_map = Mor { dom: pb.apex, cod: inner.dom.backward.total, map };
    assert(put_map@ =~= c.put.map);
    DLens {
        dom: inner.dom.clone(),
        cod: outer.cod.clone(),
        get,
        put: SliceMor { dom: domain.0, cod: inner.dom.backward.clone(), map: put_map },
    }
}

/// The lenses with the given get, in order of their puts.
pub open spec fn lenses_with_get(dom: Fam, cod: Fam, get: Fun) -> Seq<Lens> {
    let puts = slice::slice_hom(crate::theory::optics::get_span(dom, cod, get).pull(cod.backward), dom.backward);
    Seq::new(puts.len(), |k: int| Lens { dom, cod, get, put: puts[k] })
}

/// The normal-form lenses between two families, in order of their gets.
pub open spec fn all_lenses(dom: Fam, cod: Fam) -> Seq<Lens> {
    let gets = span::all_funs(dom.forward.total, cod.forward.total);
    crate::theory::listing::cat(gets.len() as int, |i: int| lenses_with_get(dom, cod, gets[i]))
}

proof fn lemma_lenses_distinct(dom: Fam, cod: Fam)
    requires
        dom.wf(),
        cod.wf(),
    ensures
        all_lenses(dom, cod).no_duplicates(),
{
    let gets = span::all_funs(dom.forward.total, cod.forward.total);
    let f = |i: int| lenses_with_get(dom, cod, gets[i]);
    span::lemma_all_funs(dom.forward.total, cod.forward.total);
    assert forall|i: int| 0 <= i < gets.len() implies (#[trigger] f(i)).no_duplicates() by {
        assert(gets[i].hom(dom.forward.total, cod.forward.total));
        let s = crate::theory::optics::get_span(dom, cod, gets[i]);
        crate::theory::slices::lemma_pull_wf(s, cod.backward);
        slice::law_slice_hom(s.pull(cod.backward), dom.backward);
        let puts = slice::slice_hom(s.pull(cod.backward), dom.backward);
        let row = f(i);
        assert forall|k: int, m: int| 0 <= k < row.len() && 0 <= m < row.len() && k != m implies row[k] != row[m] by {
            assert(row[k].put == puts[k] && row[m].put == puts[m]);
        }
    }
    crate::theory::listing::lemma_cat_labelled(gets.len() as int, f, |l: Lens| l.get, |i: int| gets[i]);
}

/// Every lens is listed once, and nothing else is.
pub proof fn law_all_lenses(dom: Fam, cod: Fam)
    requires
        dom.wf(),
        cod.wf(),
    ensures
        all_lenses(dom, cod).no_duplicates(),
        forall|l: Lens| #[trigger] all_lenses(dom, cod).contains(l) <==> l.hom(dom, cod),
{
    lemma_lenses_distinct(dom, cod);
    let gets = span::all_funs(dom.forward.total, cod.forward.total);
    let f = |i: int| lenses_with_get(dom, cod, gets[i]);
    span::lemma_all_funs(dom.forward.total, cod.forward.total);
    crate::theory::listing::lemma_cat(gets.len() as int, f);
    assert forall|l: Lens| l.hom(dom, cod) implies #[trigger] all_lenses(dom, cod).contains(l) by {
        assert(gets.contains(l.get));
        let i = choose|i: int| 0 <= i < gets.len() && gets[i] == l.get;
        let s = crate::theory::optics::get_span(dom, cod, l.get);
        crate::theory::slices::lemma_pull_wf(s, cod.backward);
        slice::law_slice_hom(s.pull(cod.backward), dom.backward);
        let puts = slice::slice_hom(s.pull(cod.backward), dom.backward);
        assert(puts.contains(l.put));
        let k = choose|k: int| 0 <= k < puts.len() && puts[k] == l.put;
        assert(f(i)[k] == l);
        assert(f(i).contains(l));
    }
    assert forall|l: Lens| #[trigger] all_lenses(dom, cod).contains(l) implies l.hom(dom, cod) by {
        let all = all_lenses(dom, cod);
        let m = choose|m: int| 0 <= m < all.len() && all[m] == l;
        let i = choose|i: int| 0 <= i < gets.len() && (#[trigger] f(i)).contains(all[m]);
        assert(gets[i].hom(dom.forward.total, cod.forward.total));
        let s = crate::theory::optics::get_span(dom, cod, gets[i]);
        crate::theory::slices::lemma_pull_wf(s, cod.backward);
        slice::law_slice_hom(s.pull(cod.backward), dom.backward);
        let puts = slice::slice_hom(s.pull(cod.backward), dom.backward);
        let row = f(i);
        let k = choose|k: int| 0 <= k < row.len() && row[k] == l;
        assert(puts.contains(puts[k]));
    }
}

/// The domains of all puts fit in machine words.
pub open spec fn hom_fits(dom: Fam, cod: Fam) -> bool {
    forall|get: Fun| #[trigger] get.hom(dom.forward.total, cod.forward.total) ==> crate::theory::optics::get_span(
        dom,
        cod,
        get,
    ).fib(cod.backward).apex <= u32::MAX
}

/// Every normal-form lens between two families.
pub fn hom(dom: &Family, cod: &Family) -> (r: Vec<DLens>)
    requires
        dom.wf(),
        cod.wf(),
        hom_fits(dom@, cod@),
    ensures
        crate::theory::listing::views(r@) == all_lenses(dom@, cod@),
        forall|k: int| 0 <= k < r@.len() ==> (#[trigger] r@[k]).wf(),
{
    let gets = finset::morphisms(dom.forward.total, cod.forward.total);
    let ghost fs = span::all_funs(dom@.forward.total, cod@.forward.total);
    let ghost f = |i: int| lenses_with_get(dom@, cod@, fs[i]);
    proof {
        assert(span::funs_of(gets@) =~= fs);
    }
    let mut out: Vec<DLens> = Vec::new();
    let mut i: usize = 0;
    assert(crate::theory::listing::views(out@) =~= crate::theory::listing::cat(0, f));
    while i < gets.len()
        invariant
            i <= gets.len(),
            dom.wf(),
            cod.wf(),
            hom_fits(dom@, cod@),
            fs == span::funs_of(gets@),
            forall|j: int| 0 <= j < gets@.len() ==> (#[trigger] gets@[j])@.hom(dom@.forward.total, cod@.forward.total),
            f == (|i: int| lenses_with_get(dom@, cod@, fs[i])),
            crate::theory::listing::views(out@) == crate::theory::listing::cat(i as int, f),
            forall|k: int| 0 <= k < out@.len() ==> (#[trigger] out@[k]).wf(),
        decreases gets.len() - i,
    {
        let get = gets[i].clone();
        assert(gets@[i as int]@.hom(dom@.forward.total, cod@.forward.total));
        assert(get@.hom(dom@.forward.total, cod@.forward.total));
        let domain = put_domain(dom, cod, &get);
        let puts = slice::morphisms(&domain.0, &dom.backward);
        let ghost row = lenses_with_get(dom@, cod@, get@);
        let ghost done = crate::theory::listing::views(out@);
        let mut k: usize = 0;
        proof {
            assert(done + row.take(0) =~= done);
            assert(crate::theory::listing::views(puts@).len() == puts@.len());
        }
        while k < puts.len()
            invariant
                k <= puts.len(),
                dom.wf(),
                cod.wf(),
                get@.hom(dom@.forward.total, cod@.forward.total),
                row == lenses_with_get(dom@, cod@, get@),
                domain.0@ == crate::theory::optics::get_span(dom@, cod@, get@).pull(cod@.backward),
                crate::theory::listing::views(puts@) == slice::slice_hom(domain.0@, dom.backward@),
                forall|j: int| 0 <= j < puts@.len() ==> (#[trigger] puts@[j]).wf(),
                crate::theory::listing::views(out@) == done + row.take(k as int),
                forall|j: int| 0 <= j < out@.len() ==> (#[trigger] out@[j]).wf(),
            decreases puts.len() - k,
        {
            let x = DLens { dom: dom.clone(), cod: cod.clone(), get: get.clone(), put: puts[k].clone() };
            proof {
                crate::theory::listing::lemma_views_push(out@, x);
                assert(crate::theory::listing::views(puts@)[k as int] == puts@[k as int]@);
                assert(puts@[k as int].wf());
                assert(x@ =~= row[k as int]);
                assert(done + row.take(k + 1) =~= (done + row.take(k as int)).push(x@));
            }
            out.push(x);
            k = k + 1;
        }
        assert(row.take(k as int) =~= row);
        i = i + 1;
    }
    out
}

/// The families over one base that two lists of slices make, row by row.
pub open spec fn family_row(objs: Seq<crate::theory::slices::Over>, i: int) -> Seq<Fam> {
    let rest = objs.filter(|o: crate::theory::slices::Over| o.base == objs[i].base);
    Seq::new(rest.len(), |j: int| Fam { forward: objs[i], backward: rest[j] })
}

/// The families of slices with base and totals below `n`, in order.
pub open spec fn all_families(n: int) -> Seq<Fam> {
    let objs = slice::all_slices(n);
    crate::theory::listing::cat(objs.len() as int, |i: int| family_row(objs, i))
}

proof fn lemma_families_distinct(n: int)
    ensures
        all_families(n).no_duplicates(),
{
    let objs = slice::all_slices(n);
    slice::law_all_slices(n);
    let f = |i: int| family_row(objs, i);
    assert forall|i: int| 0 <= i < objs.len() implies (#[trigger] f(i)).no_duplicates() by {
        let keep = |o: crate::theory::slices::Over| o.base == objs[i].base;
        crate::theory::listing::lemma_filter_distinct(objs, keep);
        let (row, rest) = (f(i), objs.filter(keep));
        assert forall|k: int, m: int| 0 <= k < row.len() && 0 <= m < row.len() && k != m implies row[k] != row[m] by {
            assert(row[k].backward == rest[k] && row[m].backward == rest[m]);
        }
    }
    crate::theory::listing::lemma_cat_labelled(objs.len() as int, f, |x: Fam| x.forward, |i: int| objs[i]);
}

/// Every family of slices with base and totals below `n` is listed once, and
/// nothing else is.
pub proof fn law_all_families(n: int)
    ensures
        all_families(n).no_duplicates(),
        forall|x: Fam| #[trigger] all_families(n).contains(x) <==> x.wf() && x.forward.base < n && x.forward.total < n
            && x.backward.total < n,
{
    lemma_families_distinct(n);
    let objs = slice::all_slices(n);
    slice::law_all_slices(n);
    let f = |i: int| family_row(objs, i);
    crate::theory::listing::lemma_cat(objs.len() as int, f);
    assert forall|x: Fam| x.wf() && x.forward.base < n && x.forward.total < n && x.backward.total < n
        implies #[trigger] all_families(n).contains(x) by {
        assert(objs.contains(x.forward) && objs.contains(x.backward));
        let i = choose|i: int| 0 <= i < objs.len() && objs[i] == x.forward;
        let keep = |o: crate::theory::slices::Over| o.base == objs[i].base;
        slice::lemma_filter_members(objs, keep);
        let rest = objs.filter(keep);
        assert(rest.contains(x.backward));
        let j = choose|j: int| 0 <= j < rest.len() && rest[j] == x.backward;
        assert(f(i)[j] == x);
        assert(f(i).contains(x));
    }
    assert forall|x: Fam| #[trigger] all_families(n).contains(x) implies x.wf() && x.forward.base < n && x.forward.total
        < n && x.backward.total < n by {
        let all = all_families(n);
        let m = choose|m: int| 0 <= m < all.len() && all[m] == x;
        let i = choose|i: int| 0 <= i < objs.len() && (#[trigger] f(i)).contains(all[m]);
        let keep = |o: crate::theory::slices::Over| o.base == objs[i].base;
        slice::lemma_filter_members(objs, keep);
        let row = f(i);
        let j = choose|j: int| 0 <= j < row.len() && row[j] == x;
        let rest = objs.filter(keep);
        assert(rest.contains(rest[j]));
        assert(objs.contains(objs[i]));
    }
}

pub fn families_up_to(max: u32) -> (r: Vec<Family>)
    ensures
        crate::theory::listing::views(r@) == all_families(max + 1),
{
    let objs = slice::objects_up_to(max);
    let ghost os = slice::all_slices(max + 1);
    let ghost f = |i: int| family_row(os, i);
    let mut out: Vec<Family> = Vec::new();
    let mut i: usize = 0;
    assert(crate::theory::listing::views(out@) =~= crate::theory::listing::cat(0, f));
    while i < objs.len()
        invariant
            i <= objs.len(),
            os == crate::theory::listing::views(objs@),
            f == (|i: int| family_row(os, i)),
            crate::theory::listing::views(out@) == crate::theory::listing::cat(i as int, f),
        decreases objs.len() - i,
    {
        let ghost keep = |o: crate::theory::slices::Over| o.base == os[i as int].base;
        let ghost done = crate::theory::listing::views(out@);
        let ghost here = os[i as int];
        let mut j: usize = 0;
        proof {
            reveal(Seq::filter);
            assert(os.take(0).filter(keep) =~= Seq::<crate::theory::slices::Over>::empty());
            assert(done + Seq::<Fam>::empty() =~= done);
            assert(with_forward(here, os.take(0).filter(keep)) =~= Seq::<Fam>::empty());
        }
        while j < objs.len()
            invariant
                i < objs.len(),
                j <= objs.len(),
                os == crate::theory::listing::views(objs@),
                here == os[i as int],
                keep == (|o: crate::theory::slices::Over| o.base == os[i as int].base),
                crate::theory::listing::views(out@) == done + with_forward(here, os.take(j as int).filter(keep)),
            decreases objs.len() - j,
        {
            proof {
                span::lemma_filter_step(os, j as int, keep);
                assert(os[i as int] == objs@[i as int]@);
                assert(os[j as int] == objs@[j as int]@);
            }
            if objs[i].base == objs[j].base {
                let x = Family { forward: objs[i].clone(), backward: objs[j].clone() };
                proof {
                    crate::theory::listing::lemma_views_push(out@, x);
                    assert(done + with_forward(here, os.take(j + 1).filter(keep)) =~= (done + with_forward(
                        here,
                        os.take(j as int).filter(keep),
                    )).push(x@));
                }
                out.push(x);
            }
            j = j + 1;
        }
        proof {
            assert(os.take(j as int) =~= os);
            assert(with_forward(here, os.filter(keep)) =~= family_row(os, i as int));
        }
        i = i + 1;
    }
    out
}

/// The families with a fixed forward slice.
pub open spec fn with_forward(forward: crate::theory::slices::Over, rest: Seq<crate::theory::slices::Over>) -> Seq<Fam> {
    Seq::new(rest.len(), |j: int| Fam { forward, backward: rest[j] })
}

/// The witness of a normal form. The apex is the total space of `X`,
/// with legs `X → A` and `X → B` via `get`. The forward leg is `x ↦ (x, get(x))`.
pub fn embed(lens: &DLens) -> (r: Witness)
    requires
        lens.wf(),
        lens@.span().pull(lens.cod@.forward).total <= u32::MAX,
    ensures
        r@ == lens@.embed(),
        r.wf(),
{
    proof {
        crate::theory::optics::lemma_lens(lens@);
        crate::theory::optics::lemma_embed(lens@);
        crate::theory::limits::lemma_pull(lens@.span().to_right, lens.cod@.forward.leg);
    }
    let x_to_b = finset::compose(&lens.cod.forward.leg, &lens.get);
    let span = Span {
        left: lens.dom.forward.base,
        right: lens.cod.forward.base,
        apex: lens.dom.forward.total,
        to_left: lens.dom.forward.leg.clone(),
        to_right: x_to_b.clone(),
    };
    let pb = finset::pullback(&x_to_b, &lens.cod.forward.leg);
    let ids = finset::id(lens.dom.forward.total);
    proof {
        assert(finset::int_pairs(pb.pairs@).len() == pb.pairs@.len());
        assert forall|w: int| 0 <= w < ids.dom implies pb@.lists(#[trigger] ids@.map[w], lens.get@.map[w]) by {
            assert(lens@.get.map[w] >= 0);
        }
    }
    let fwd_map = finset::pullback_mediator(&pb, &ids, &lens.get);
    let fwd_cod = slice::reindex_obj(&span, &lens.cod.forward);
    Witness {
        dom: lens.dom.clone(),
        cod: lens.cod.clone(),
        span,
        fwd: SliceMor { dom: lens.dom.forward.clone(), cod: fwd_cod, map: fwd_map },
        bwd: lens.put.clone(),
    }
}

/// Yoneda reduction of a witness to its normal form.
pub fn normalize(w: &Witness) -> (r: DLens)
    requires
        w.wf(),
        w@.normal().pb().apex <= u32::MAX,
    ensures
        r@ == w@.normal(),
        r.wf(),
{
    let ghost n = w@.normal();
    proof {
        crate::theory::optics::lemma_wit(w@);
        crate::theory::optics::lemma_lens(n);
        crate::theory::slices::lemma_pull_wf(w.span@, w.cod@.forward);
        crate::theory::slices::lemma_pull_wf(w.span@, w.cod@.backward);
        assert(w.fwd.cod@.total == w.span@.fib(w.cod@.forward).apex);
        assert(w.bwd.dom@.total == w.span@.fib(w.cod@.backward).apex);
    }
    let pb_y = finset::pullback(&w.span.to_right, &w.cod.forward.leg);
    let get = finset::compose(&pb_y.to_right, &w.fwd.map);
    let t = finset::compose(&pb_y.to_left, &w.fwd.map);
    let domain = put_domain(&w.dom, &w.cod, &get);
    let pb_put = domain.1;
    let pb_m = finset::pullback(&w.span.to_right, &w.cod.backward.leg);
    let along = finset::compose(&t, &pb_put.to_left);
    proof {
        assert(finset::int_pairs(pb_m.pairs@).len() == pb_m.pairs@.len());
        assert forall|k: int| 0 <= k < along.dom implies pb_m@.lists(#[trigger] along@.map[k], pb_put@.to_right.map[k]) by {
            assert(along@.map[k] == w@.residual().map[n.pb().to_left.map[k]]);
        }
    }
    let into_m = finset::pullback_mediator(&pb_m, &along, &pb_put.to_right);
    proof {
        assert forall|k: int| 0 <= k < into_m@.dom implies into_m@.map[k] == w@.into_residual().map[k] by {
            assert(along@.map[k] == w@.residual().map[n.pb().to_left.map[k]]);
        }
        assert(into_m@ =~= w@.into_residual());
    }
    let map = finset::compose(&w.bwd.map, &into_m);
    DLens {
        dom: w.dom.clone(),
        cod: w.cod.clone(),
        get,
        put: SliceMor { dom: domain.0, cod: w.dom.backward.clone(), map },
    }
}

/// The 2-cell from the embedded apex `X` to the witness apex, used to prove
/// `embed ∘ normalize ~ id`.
pub fn normalizing_cell(w: &Witness) -> (r: span::TwoCell)
    requires
        w.wf(),
    ensures
        r.map@ == w@.residual(),
{
    proof {
        crate::theory::optics::lemma_wit(w@);
        crate::theory::slices::lemma_pull_wf(w.span@, w.cod@.forward);
        assert(w.fwd.cod@.total == w.span@.fib(w.cod@.forward).apex);
    }
    let pb_y = finset::pullback(&w.span.to_right, &w.cod.forward.leg);
    span::TwoCell { map: finset::compose(&pb_y.to_left, &w.fwd.map) }
}

// ----- coproducts -----

/// The families behind a list.
pub open spec fn fams(parts: Seq<Family>) -> Seq<Fam> {
    crate::theory::listing::views(parts)
}

/// The coproduct of the families fits in machine words.
pub open spec fn sum_fits(parts: Seq<Fam>) -> bool {
    &&& Fam::sum(parts).forward.base <= u32::MAX
    &&& Fam::sum(parts).forward.total <= u32::MAX
    &&& Fam::sum(parts).backward.total <= u32::MAX
}

/// Appends the values of a function, each shifted.
pub(crate) fn append_shifted(out: &mut Vec<u32>, leg: &Mor, shift: u32)
    requires
        leg.wf(),
        shift + leg.cod <= u32::MAX,
    ensures
        final(out)@.len() == old(out)@.len() + leg.dom,
        forall|x: int| 0 <= x < old(out)@.len() ==> final(out)@[x] == old(out)@[x],
        forall|k: int| 0 <= k < leg.dom ==> final(out)@[#[trigger] (old(out)@.len() + k)] == shift + leg@.map[k],
{
    let ghost start = out@;
    let mut k: u32 = 0;
    while k < leg.dom
        invariant
            k <= leg.dom,
            leg.wf(),
            shift + leg.cod <= u32::MAX,
            out@.len() == start.len() + k,
            forall|x: int| 0 <= x < start.len() ==> out@[x] == start[x],
            forall|j: int| 0 <= j < k ==> out@[#[trigger] (start.len() + j)] == shift + leg@.map[j],
        decreases leg.dom - k,
    {
        let v: u32 = leg.apply(k);
        assert(leg@.map[k as int] == v);
        out.push(shift + v);
        k = k + 1;
    }
}

/// Coproduct of a finite family of cospans.
pub fn coproduct(parts: &[Family]) -> (r: Family)
    requires
        crate::theory::lens_sums::parts_wf(fams(parts@)),
        sum_fits(fams(parts@)),
    ensures
        r@ == Fam::sum(fams(parts@)),
        r.wf(),
{
    let ghost ps = fams(parts@);
    let ghost n = ps.len() as int;
    let ghost sum = Fam::sum(ps);
    let ghost bs = crate::theory::lens_sums::bases(ps);
    let ghost fs = crate::theory::lens_sums::forwards(ps);
    let ghost ws = crate::theory::lens_sums::backwards(ps);
    proof {
        crate::theory::lens_sums::lemma_sum(ps);
        crate::theory::lens_sums::lemma_sizes(ps);
    }
    let mut base: u32 = 0;
    let mut fwd_total: u32 = 0;
    let mut bwd_total: u32 = 0;
    let mut fwd_leg: Vec<u32> = Vec::new();
    let mut bwd_leg: Vec<u32> = Vec::new();
    let mut i: usize = 0;
    while i < parts.len()
        invariant
            i <= parts.len(),
            ps == fams(parts@),
            n == ps.len(),
            n == parts@.len(),
            sum == Fam::sum(ps),
            bs == crate::theory::lens_sums::bases(ps),
            fs == crate::theory::lens_sums::forwards(ps),
            ws == crate::theory::lens_sums::backwards(ps),
            crate::theory::lens_sums::parts_wf(ps),
            crate::theory::listing::sizes_ok(bs, n),
            crate::theory::listing::sizes_ok(fs, n),
            crate::theory::listing::sizes_ok(ws, n),
            sum_fits(ps),
            base == crate::theory::listing::off(bs, i as int),
            fwd_total == crate::theory::listing::off(fs, i as int),
            bwd_total == crate::theory::listing::off(ws, i as int),
            fwd_leg@.len() == fwd_total,
            bwd_leg@.len() == bwd_total,
            forall|x: int| 0 <= x < fwd_total ==> fwd_leg@[x] == sum.forward.leg.map[x],
            forall|x: int| 0 <= x < bwd_total ==> bwd_leg@[x] == sum.backward.leg.map[x],
        decreases parts.len() - i,
    {
        let p = &parts[i];
        proof {
            assert(ps[i as int] == p@);
            assert(ps[i as int].wf());
            crate::theory::listing::lemma_off_mono(bs, n, i + 1, n);
            crate::theory::listing::lemma_off_mono(fs, n, i + 1, n);
            crate::theory::listing::lemma_off_mono(ws, n, i + 1, n);
            crate::theory::lens_sums::lemma_sum(ps);
        }
        let ghost f0 = fwd_leg@;
        let ghost b0 = bwd_leg@;
        append_shifted(&mut fwd_leg, &p.forward.leg, base);
        append_shifted(&mut bwd_leg, &p.backward.leg, base);
        proof {
            assert forall|x: int| 0 <= x < fwd_leg@.len() implies fwd_leg@[x] == sum.forward.leg.map[x] by {
                if x >= fwd_total {
                    let k = x - fwd_total;
                    assert(fwd_leg@[f0.len() + k] == base + p.forward.leg@.map[k]);
                    assert(sum.forward.leg.map[crate::theory::listing::off(fs, i as int) + k] == base + p.forward.leg@.map[k]);
                }
            }
            assert forall|x: int| 0 <= x < bwd_leg@.len() implies bwd_leg@[x] == sum.backward.leg.map[x] by {
                if x >= bwd_total {
                    let k = x - bwd_total;
                    assert(bwd_leg@[b0.len() + k] == base + p.backward.leg@.map[k]);
                    assert(sum.backward.leg.map[crate::theory::listing::off(ws, i as int) + k] == base + p.backward.leg@.map[k]);
                }
            }
        }
        base = base + p.forward.base;
        fwd_total = fwd_total + p.forward.total;
        bwd_total = bwd_total + p.backward.total;
        i = i + 1;
    }
    let r = Family {
        forward: SliceObj { base, total: fwd_total, leg: Mor { dom: fwd_total, cod: base, map: fwd_leg } },
        backward: SliceObj { base, total: bwd_total, leg: Mor { dom: bwd_total, cod: base, map: bwd_leg } },
    };
    assert(r@.forward =~= sum.forward);
    assert(r@.backward =~= sum.backward);
    r
}

/// Where the base, forward and backward parts of each summand begin.
pub fn offsets(parts: &[Family]) -> (r: Vec<(u32, u32, u32)>)
    requires
        crate::theory::lens_sums::parts_wf(fams(parts@)),
        sum_fits(fams(parts@)),
    ensures
        r@.len() == parts@.len(),
        forall|i: int| 0 <= i < r@.len() ==> {
            let t = #[trigger] r@[i];
            &&& t.0 == crate::theory::listing::off(crate::theory::lens_sums::bases(fams(parts@)), i)
            &&& t.1 == crate::theory::listing::off(crate::theory::lens_sums::forwards(fams(parts@)), i)
            &&& t.2 == crate::theory::listing::off(crate::theory::lens_sums::backwards(fams(parts@)), i)
        },
{
    let ghost ps = fams(parts@);
    let ghost n = ps.len() as int;
    let ghost bs = crate::theory::lens_sums::bases(ps);
    let ghost fs = crate::theory::lens_sums::forwards(ps);
    let ghost ws = crate::theory::lens_sums::backwards(ps);
    proof {
        crate::theory::lens_sums::lemma_sizes(ps);
    }
    let mut out: Vec<(u32, u32, u32)> = Vec::new();
    let mut base: u32 = 0;
    let mut fwd: u32 = 0;
    let mut bwd: u32 = 0;
    let mut i: usize = 0;
    while i < parts.len()
        invariant
            i <= parts.len(),
            ps == fams(parts@),
            n == ps.len(),
            n == parts@.len(),
            bs == crate::theory::lens_sums::bases(ps),
            fs == crate::theory::lens_sums::forwards(ps),
            ws == crate::theory::lens_sums::backwards(ps),
            crate::theory::listing::sizes_ok(bs, n),
            crate::theory::listing::sizes_ok(fs, n),
            crate::theory::listing::sizes_ok(ws, n),
            sum_fits(ps),
            base == crate::theory::listing::off(bs, i as int),
            fwd == crate::theory::listing::off(fs, i as int),
            bwd == crate::theory::listing::off(ws, i as int),
            out@.len() == i,
            forall|j: int| 0 <= j < i ==> {
                let t = #[trigger] out@[j];
                &&& t.0 == crate::theory::listing::off(bs, j)
                &&& t.1 == crate::theory::listing::off(fs, j)
                &&& t.2 == crate::theory::listing::off(ws, j)
            },
        decreases parts.len() - i,
    {
        let p = &parts[i];
        proof {
            assert(ps[i as int] == p@);
            crate::theory::listing::lemma_off_mono(bs, n, i + 1, n);
            crate::theory::listing::lemma_off_mono(fs, n, i + 1, n);
            crate::theory::listing::lemma_off_mono(ws, n, i + 1, n);
        }
        out.push((base, fwd, bwd));
        base = base + p.forward.base;
        fwd = fwd + p.forward.total;
        bwd = bwd + p.backward.total;
        i = i + 1;
    }
    out
}

/// Injection of summand `i` into the coproduct.
pub fn injection(parts: &[Family], i: usize) -> (r: DLens)
    requires
        crate::theory::lens_sums::parts_wf(fams(parts@)),
        sum_fits(fams(parts@)),
        i < parts@.len(),
        Lens::inj(fams(parts@), i as int).pb().apex <= u32::MAX,
    ensures
        r@ == Lens::inj(fams(parts@), i as int),
        r.wf(),
{
    let ghost ps = fams(parts@);
    let ghost l = Lens::inj(ps, i as int);
    let ghost n = ps.len() as int;
    let sum = coproduct(parts);
    let offs = offsets(parts);
    let fwd_at: u32 = offs[i].1;
    let bwd_at: u32 = offs[i].2;
    let part = &parts[i];
    proof {
        assert(ps[i as int] == part@);
        crate::theory::lens_sums::lemma_inj(ps, i as int);
        crate::theory::lens_sums::lemma_sizes(ps);
        crate::theory::listing::lemma_off_mono(crate::theory::lens_sums::forwards(ps), n, i + 1, n);
        crate::theory::optics::lemma_lens(l);
    }
    let mut get_map: Vec<u32> = Vec::new();
    let mut k: u32 = 0;
    while k < part.forward.total
        invariant
            k <= part.forward.total,
            fwd_at + part.forward.total <= u32::MAX,
            get_map@.len() == k,
            forall|j: int| 0 <= j < k ==> get_map@[j] == fwd_at + j,
        decreases part.forward.total - k,
    {
        get_map.push(fwd_at + k);
        k = k + 1;
    }
    let get = Mor { dom: part.forward.total, cod: sum.forward.total, map: get_map };
    assert(get@ =~= l.get);
    let domain = put_domain(part, &sum, &get);
    let pb = domain.1;
    // A pair is (x, x' tagged with this summand); the put drops the tag.
    let mut map: Vec<u32> = Vec::new();
    let mut q: u32 = 0;
    while q < pb.apex
        invariant
            q <= pb.apex,
            l == Lens::inj(ps, i as int),
            l.wf(),
            pb@ == l.pb(),
            pb@.to_right.wf(),
            pb@.to_right.dom == pb.apex,
            l.put.map.hom(pb.apex as int, l.dom.backward.total),
            bwd_at == crate::theory::listing::off(crate::theory::lens_sums::backwards(ps), i as int),
            map@.len() == q,
            forall|j: int| 0 <= j < q ==> map@[j] == l.put.map.map[j],
        decreases pb.apex - q,
    {
        let tagged: u32 = pb.to_right.apply(q);
        proof {
            assert(0 <= l.put.map.map[q as int]);
            assert(l.put.map.map[q as int] == tagged - bwd_at);
        }
        map.push(tagged - bwd_at);
        q = q + 1;
    }
    let put_map = Mor { dom: pb.apex, cod: part.backward.total, map };
    assert(put_map@ =~= l.put.map);
    DLens {
        dom: part.clone(),
        cod: sum,
        get,
        put: SliceMor { dom: domain.0, cod: part.backward.clone(), map: put_map },
    }
}

/// The tuple of lenses obtained by precomposing with the injections.
pub fn decompose(parts: &[Family], lens: &DLens) -> (r: Vec<DLens>)
    requires
        crate::theory::lens_sums::parts_wf(fams(parts@)),
        sum_fits(fams(parts@)),
        lens.wf(),
        lens.dom@ == Fam::sum(fams(parts@)),
        forall|i: int| 0 <= i < parts@.len() ==> (#[trigger] Lens::inj(fams(parts@), i)).pb().apex <= u32::MAX,
        forall|i: int| 0 <= i < parts@.len() ==> (#[trigger] Lens::comp(lens@, Lens::inj(fams(parts@), i))).pb().apex
            <= u32::MAX,
    ensures
        crate::theory::listing::views(r@) == crate::theory::lens_sums::components(fams(parts@), lens@),
{
    let ghost ps = fams(parts@);
    let mut out: Vec<DLens> = Vec::new();
    let mut i: usize = 0;
    while i < parts.len()
        invariant
            i <= parts.len(),
            ps == fams(parts@),
            crate::theory::lens_sums::parts_wf(ps),
            sum_fits(ps),
            lens.wf(),
            lens.dom@ == Fam::sum(ps),
            forall|j: int| 0 <= j < parts@.len() ==> (#[trigger] Lens::inj(ps, j)).pb().apex <= u32::MAX,
            forall|j: int| 0 <= j < parts@.len() ==> (#[trigger] Lens::comp(lens@, Lens::inj(ps, j))).pb().apex <= u32::MAX,
            out@.len() == i,
            forall|j: int| 0 <= j < i ==> (#[trigger] out@[j])@ == Lens::comp(lens@, Lens::inj(ps, j)),
        decreases parts.len() - i,
    {
        proof {
            crate::theory::lens_sums::lemma_inj(ps, i as int);
            assert(Lens::inj(ps, i as int).pb().apex <= u32::MAX);
            assert(Lens::comp(lens@, Lens::inj(ps, i as int)).pb().apex <= u32::MAX);
        }
        let inj = injection(parts, i);
        out.push(compose(lens, &inj));
        i = i + 1;
    }
    assert(crate::theory::listing::views(out@) =~= crate::theory::lens_sums::components(ps, lens@));
    out
}

/// The summand in which `x` lies, among those with the given offsets.
fn summand_of(parts: &[Family], x: u32) -> (r: usize)
    requires
        crate::theory::lens_sums::parts_wf(fams(parts@)),
        sum_fits(fams(parts@)),
        x < Fam::sum(fams(parts@)).forward.total,
    ensures
        r < parts@.len(),
        r == crate::theory::listing::which(crate::theory::lens_sums::forwards(fams(parts@)), parts@.len() as int, x as int),
{
    let ghost ps = fams(parts@);
    let ghost n = ps.len() as int;
    let ghost fs = crate::theory::lens_sums::forwards(ps);
    proof {
        crate::theory::lens_sums::lemma_sizes(ps);
    }
    let mut seen: u32 = 0;
    let mut i: usize = 0;
    while i < parts.len()
        invariant
            i <= parts.len(),
            ps == fams(parts@),
            n == parts@.len(),
            n == ps.len(),
            fs == crate::theory::lens_sums::forwards(ps),
            crate::theory::listing::sizes_ok(fs, n),
            sum_fits(ps),
            x < crate::theory::listing::off(fs, n),
            seen == crate::theory::listing::off(fs, i as int),
            seen <= x,
        decreases parts.len() - i,
    {
        proof {
            assert(ps[i as int] == parts@[i as int]@);
            crate::theory::listing::lemma_off_mono(fs, n, i + 1, n);
        }
        if x < seen + parts[i].forward.total {
            proof {
                crate::theory::listing::lemma_which_at(fs, n, i as int, x - seen);
            }
            return i;
        }
        seen = seen + parts[i].forward.total;
        i = i + 1;
    }
    0
}

/// Copairing of a matching family of lenses, the inverse of [`decompose`].
pub fn copair(parts: &[Family], legs: &[DLens]) -> (r: DLens)
    requires
        crate::theory::lens_sums::parts_wf(fams(parts@)),
        sum_fits(fams(parts@)),
        legs@.len() > 0,
        crate::theory::lens_sums::legs_match(fams(parts@), crate::theory::listing::views(legs@), legs@[0].cod@),
        Lens::copair(fams(parts@), crate::theory::listing::views(legs@), legs@[0].cod@).pb().apex <= u32::MAX,
    ensures
        r@ == Lens::copair(fams(parts@), crate::theory::listing::views(legs@), legs@[0].cod@),
        r.wf(),
{
    let ghost ps = fams(parts@);
    let ghost ls = crate::theory::listing::views(legs@);
    let ghost n = ps.len() as int;
    let ghost fs = crate::theory::lens_sums::forwards(ps);
    let ghost ws = crate::theory::lens_sums::backwards(ps);
    let cod = legs[0].cod.clone();
    let ghost l = Lens::copair(ps, ls, cod@);
    proof {
        assert(ls[0] == legs@[0]@);
        assert(ls[0].hom(ps[0], cod@));
        crate::theory::lens_sums::lemma_copair(ps, ls, cod@);
        crate::theory::lens_sums::lemma_sizes(ps);
        crate::theory::optics::lemma_lens(l);
    }
    let dom = coproduct(parts);
    let offs = offsets(parts);
    let mut get_map: Vec<u32> = Vec::new();
    let mut i: usize = 0;
    while i < legs.len()
        invariant
            i <= legs.len(),
            ps == fams(parts@),
            ls == crate::theory::listing::views(legs@),
            n == ps.len(),
            n == legs@.len(),
            fs == crate::theory::lens_sums::forwards(ps),
            crate::theory::lens_sums::legs_match(ps, ls, cod@),
            l == Lens::copair(ps, ls, cod@),
            forall|a: int, b: int| 0 <= a < n && 0 <= b < ps[a].forward.total ==> #[trigger] l.get.map[
                crate::theory::listing::off(fs, a) + b] == ls[a].get.map[b],
            get_map@.len() == crate::theory::listing::off(fs, i as int),
            forall|x: int| 0 <= x < get_map@.len() ==> get_map@[x] == l.get.map[x],
        decreases legs.len() - i,
    {
        let leg = &legs[i];
        proof {
            assert(ls[i as int] == leg@);
            assert(ls[i as int].hom(ps[i as int], cod@));
        }
        let ghost start = get_map@;
        append_shifted(&mut get_map, &leg.get, 0);
        proof {
            assert forall|x: int| 0 <= x < get_map@.len() implies get_map@[x] == l.get.map[x] by {
                if x >= start.len() {
                    let k = x - start.len();
                    assert(get_map@[start.len() + k] == leg.get@.map[k]);
                    assert(l.get.map[crate::theory::listing::off(fs, i as int) + k] == ls[i as int].get.map[k]);
                }
            }
        }
        i = i + 1;
    }
    let get = Mor { dom: dom.forward.total, cod: cod.forward.total, map: get_map };
    assert(get@ =~= l.get);
    let domain = put_domain(&dom, &cod, &get);
    let pb = domain.1;
    let mut map: Vec<u32> = Vec::new();
    let mut q: u32 = 0;
    while q < pb.apex
        invariant
            q <= pb.apex,
            ps == fams(parts@),
            ls == crate::theory::listing::views(legs@),
            n == ps.len(),
            n == parts@.len(),
            n == legs@.len(),
            fs == crate::theory::lens_sums::forwards(ps),
            ws == crate::theory::lens_sums::backwards(ps),
            crate::theory::lens_sums::parts_wf(ps),
            crate::theory::listing::sizes_ok(fs, n),
            sum_fits(ps),
            crate::theory::lens_sums::legs_match(ps, ls, cod@),
            cod.wf(),
            l == Lens::copair(ps, ls, cod@),
            l.hom(Fam::sum(ps), cod@),
            pb@ == l.pb(),
            offs@.len() == n,
            forall|j: int| 0 <= j < n ==> {
                let t = #[trigger] offs@[j];
                &&& t.1 == crate::theory::listing::off(fs, j)
                &&& t.2 == crate::theory::listing::off(ws, j)
            },
            map@.len() == q,
            forall|j: int| 0 <= j < q ==> map@[j] == l.put.map.map[j],
        decreases pb.apex - q,
    {
        proof {
            crate::theory::optics::lemma_lens(l);
        }
        let x: u32 = pb.to_left.apply(q);
        let y: u32 = pb.to_right.apply(q);
        let idx: usize = summand_of(parts, x);
        let leg = &legs[idx];
        proof {
            assert(l.pb().to_left.map[q as int] == x && l.pb().to_right.map[q as int] == y);
            crate::theory::listing::lemma_which(fs, n, x as int);
            assert(ls[idx as int] == leg@);
            assert(ls[idx as int].hom(ps[idx as int], cod@));
            assert(ps[idx as int] == parts@[idx as int]@);
            assert(offs@[idx as int].1 == crate::theory::listing::off(fs, idx as int));
            assert(offs@[idx as int].2 == crate::theory::listing::off(ws, idx as int));
        }
        let local_x: u32 = x - offs[idx].1;
        proof {
            assert(l.get.map[x as int] == leg@.get.map[local_x as int]);
            assert(leg.put.dom@.total == leg@.pb().apex);
        }
        let local_pb = put_domain(&leg.dom, &leg.cod, &leg.get).1;
        let local_put: u32 = put_apply(leg, &local_pb, local_x, y);
        proof {
            assert(l.put.map.map[q as int] == offs@[idx as int].2 + local_put);
            assert(0 <= l.put.map.map[q as int] < l.dom.backward.total);
        }
        map.push(offs[idx].2 + local_put);
        q = q + 1;
    }
    let put_map = Mor { dom: pb.apex, cod: dom.backward.total, map };
    assert(put_map@ =~= l.put.map);
    let back = dom.backward.clone();
    DLens { dom, cod, get, put: SliceMor { dom: domain.0, cod: back, map: put_map } }
}

} // verus!
