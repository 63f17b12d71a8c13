//! The indexed categories of slices and coslices.
//!
//! `C/– : Span^op → Cat` sends `A` to the slice `C/A` and a span
//! `A ← M → B` to pullback along `M → B` followed by the leg `M → A`.
//! `–/C` is the dual, reindexing coslices along cospans by pushout.
//!
//! `θ_A : Id ⇒ id*` and `θ_{f,g} : f* ∘ g* ⇒ (g ∘ f)*` are the canonical
//! comparisons of those pullbacks. `act_two_cell` is the action of a span
//! 2-cell on a slice, covariant in the 2-cell as in the relation of
//! witnesses.
use vstd::prelude::*;
use crate::finset;
use crate::finset::Mor;
use crate::span;
use crate::span::Cospan;
use crate::span::Span;
use crate::span::TwoCell;
use crate::theory::fun::Fun;
use crate::theory::slices::Over;
use crate::theory::slices::OverMor;
use crate::theory::coslices::Under;
use crate::theory::coslices::UnderMor;
use crate::theory::coslices::Quad;

verus! {

#[derive(Eq, Debug)]
pub struct SliceObj {
    pub base: u32,
    pub total: u32,
    pub leg: Mor,
}

impl View for SliceObj {
    type V = Over;

    open spec fn view(&self) -> Over {
        Over { base: self.base as int, total: self.total as int, leg: self.leg@ }
    }
}

impl Clone for SliceObj {
    fn clone(&self) -> (r: SliceObj)
        ensures
            r@ == self@,
    {
        SliceObj { base: self.base, total: self.total, leg: self.leg.clone() }
    }
}

impl PartialEq for SliceObj {
    fn eq(&self, other: &SliceObj) -> (r: bool) {
        self.base == other.base && self.total == other.total && self.leg == other.leg
    }
}

impl vstd::std_specs::cmp::PartialEqSpecImpl for SliceObj {
    open spec fn obeys_eq_spec() -> bool {
        true
    }

    open spec fn eq_spec(&self, other: &SliceObj) -> bool {
        self@ == other@
    }
}

impl SliceObj {
    pub open spec fn wf(&self) -> bool {
        self@.wf()
    }

    /// Whether the leg joins the base and the total.
    pub fn check(&self) -> (ok: bool)
        ensures
            ok == self.wf(),
    {
        self.leg.check() && self.leg.dom == self.total && self.leg.cod == self.base
    }
}

#[derive(Eq, Debug)]
pub struct SliceMor {
    pub dom: SliceObj,
    pub cod: SliceObj,
    pub map: Mor,
}

impl View for SliceMor {
    type V = OverMor;

    open spec fn view(&self) -> OverMor {
        OverMor { dom: self.dom@, cod: self.cod@, map: self.map@ }
    }
}

impl Clone for SliceMor {
    fn clone(&self) -> (r: SliceMor)
        ensures
            r@ == self@,
    {
        SliceMor { dom: self.dom.clone(), cod: self.cod.clone(), map: self.map.clone() }
    }
}

impl PartialEq for SliceMor {
    fn eq(&self, other: &SliceMor) -> (r: bool) {
        self.dom == other.dom && self.cod == other.cod && self.map == other.map
    }
}

impl vstd::std_specs::cmp::PartialEqSpecImpl for SliceMor {
    open spec fn obeys_eq_spec() -> bool {
        true
    }

    open spec fn eq_spec(&self, other: &SliceMor) -> bool {
        self@ == other@
    }
}

impl SliceMor {
    pub open spec fn wf(&self) -> bool {
        self@.wf()
    }

    /// Whether the map stays over one base.
    pub fn check(&self) -> (ok: bool)
        ensures
            ok == self.wf(),
    {
        if !(self.dom.check() && self.cod.check() && self.map.check() && self.dom.base == self.cod.base && self.map.dom
            == self.dom.total && self.map.cod == self.cod.total) {
            return false;
        }
        finset::compose(&self.cod.leg, &self.map) == self.dom.leg
    }
}

pub fn slice_id(obj: &SliceObj) -> (r: SliceMor)
    ensures
        r@ == OverMor::id(obj@),
{
    SliceMor { dom: obj.clone(), cod: obj.clone(), map: finset::id(obj.total) }
}

pub fn compose(g: &SliceMor, f: &SliceMor) -> (r: SliceMor)
    requires
        f.map.wf(),
        g.map.wf(),
        f.map.cod == g.map.dom,
        f.cod@ == g.dom@,
    ensures
        r@ == g@.o(f@),
{
    SliceMor { dom: f.dom.clone(), cod: g.cod.clone(), map: finset::compose(&g.map, &f.map) }
}

/// The slices with base and total below `n`, in order.
pub open spec fn all_slices(n: int) -> Seq<Over> {
    crate::theory::listing::cat(n, |base: int| crate::theory::listing::cat(n, |total: int| slice_block(base, total)))
}

/// The slices with the given base and total, in order of their legs.
pub open spec fn slice_block(base: int, total: int) -> Seq<Over> {
    let fs = span::all_funs(total, base);
    Seq::new(fs.len(), |k: int| Over { base, total, leg: fs[k] })
}

proof fn lemma_slices_distinct(n: int)
    ensures
        all_slices(n).no_duplicates(),
{
    let f1 = |base: int| crate::theory::listing::cat(n, |total: int| slice_block(base, total));
    assert forall|base: int| 0 <= base < n implies (#[trigger] f1(base)).no_duplicates() && forall|k: int|
        0 <= k < f1(base).len() ==> (#[trigger] f1(base)[k]).base == base by {
        let f2 = |total: int| slice_block(base, total);
        assert forall|total: int| 0 <= total < n implies (#[trigger] f2(total)).no_duplicates() by {
            span::lemma_all_funs(total, base);
            let (b, fs) = (f2(total), span::all_funs(total, base));
            assert forall|i: int, j: int| 0 <= i < b.len() && 0 <= j < b.len() && i != j implies b[i] != b[j] by {
                assert(b[i].leg == fs[i] && b[j].leg == fs[j]);
            }
        }
        crate::theory::listing::lemma_cat_labelled(n, f2, |s: Over| s.total, |i: int| i);
        crate::theory::listing::lemma_cat_all(n, f2, |s: Over| s.base == base);
    }
    crate::theory::listing::lemma_cat_labelled(n, f1, |s: Over| s.base, |i: int| i);
}

/// Every slice with base and total below `n` is listed once, and nothing else
/// is.
pub proof fn law_all_slices(n: int)
    ensures
        all_slices(n).no_duplicates(),
        forall|s: Over| #[trigger] all_slices(n).contains(s) <==> s.wf() && s.base < n && s.total < n,
{
    lemma_slices_distinct(n);
    assert forall|s: Over| s.wf() && s.base < n && s.total < n implies #[trigger] all_slices(n).contains(s) by {
        span::lemma_all_funs(s.leg.dom, s.leg.cod);
        let fs = span::all_funs(s.leg.dom, s.leg.cod);
        assert(fs.contains(s.leg));
        let i = choose|i: int| 0 <= i < fs.len() && fs[i] == s.leg;
        assert(slice_block(s.base, s.total)[i] == s);
        let f2 = |total: int| slice_block(s.base, total);
        assert(f2(s.total).contains(s));
        crate::theory::listing::lemma_cat(n, f2);
        let f1 = |base: int| crate::theory::listing::cat(n, |total: int| slice_block(base, total));
        assert(f1(s.base).contains(s));
        crate::theory::listing::lemma_cat(n, f1);
    }
    assert forall|s: Over| #[trigger] all_slices(n).contains(s) implies s.wf() && s.base < n && s.total < n by {
        let f1 = |base: int| crate::theory::listing::cat(n, |total: int| slice_block(base, total));
        crate::theory::listing::lemma_cat(n, f1);
        let all = all_slices(n);
        let k = choose|k: int| 0 <= k < all.len() && all[k] == s;
        let base = choose|base: int| 0 <= base < n && (#[trigger] f1(base)).contains(all[k]);
        let f2 = |total: int| slice_block(base, total);
        crate::theory::listing::lemma_cat(n, f2);
        let c1 = f1(base);
        let k1 = choose|k1: int| 0 <= k1 < c1.len() && c1[k1] == s;
        let total = choose|total: int| 0 <= total < n && (#[trigger] f2(total)).contains(c1[k1]);
        span::lemma_all_funs(total, base);
        let fs = span::all_funs(total, base);
        let row = slice_block(base, total);
        let j = choose|j: int| 0 <= j < row.len() && row[j] == s;
        assert(fs[j].wf());
    }
}

pub fn objects_up_to(max: u32) -> (r: Vec<SliceObj>)
    ensures
        crate::theory::listing::views(r@) == all_slices(max + 1),
{
    let cards = finset::objects_up_to(max);
    let ghost n = max + 1;
    let ghost f1 = |base: int| crate::theory::listing::cat(n, |total: int| slice_block(base, total));
    let mut out: Vec<SliceObj> = Vec::new();
    let mut i: usize = 0;
    assert(crate::theory::listing::views(out@) =~= crate::theory::listing::cat(0, f1));
    while i < cards.len()
        invariant
            n == max + 1,
            cards@ == Seq::new(max as nat + 1, |k: int| k as u32),
            i <= cards.len(),
            f1 == (|base: int| crate::theory::listing::cat(n, |total: int| slice_block(base, total))),
            crate::theory::listing::views(out@) == crate::theory::listing::cat(i as int, f1),
        decreases cards.len() - i,
    {
        let base: u32 = cards[i];
        let ghost done1 = crate::theory::listing::views(out@);
        let ghost f2 = |total: int| slice_block(base as int, total);
        let mut j: usize = 0;
        assert(done1 + crate::theory::listing::cat(0, f2) =~= done1);
        while j < cards.len()
            invariant
                n == max + 1,
                cards@ == Seq::new(max as nat + 1, |k: int| k as u32),
                j <= cards.len(),
                f2 == (|total: int| slice_block(base as int, total)),
                crate::theory::listing::views(out@) == done1 + crate::theory::listing::cat(j as int, f2),
            decreases cards.len() - j,
        {
            let total: u32 = cards[j];
            let legs = finset::morphisms(total, base);
            let ghost row = slice_block(base as int, total as int);
            let ghost done2 = crate::theory::listing::views(out@);
            let mut k: usize = 0;
            proof {
                assert(done2 + row.take(0) =~= done2);
                assert(span::funs_of(legs@) =~= span::all_funs(total as int, base as int));
            }
            while k < legs.len()
                invariant
                    k <= legs.len(),
                    span::funs_of(legs@) == span::all_funs(total as int, base as int),
                    row == slice_block(base as int, total as int),
                    crate::theory::listing::views(out@) == done2 + row.take(k as int),
                decreases legs.len() - k,
            {
                let x = SliceObj { base, total, leg: legs[k].clone() };
                proof {
                    crate::theory::listing::lemma_views_push(out@, x);
                    assert(span::funs_of(legs@)[k as int] == legs@[k as int]@);
                    assert(x@ =~= row[k as int]);
                    assert(done2 + row.take(k + 1) =~= (done2 + row.take(k as int)).push(x@));
                }
                out.push(x);
                k = k + 1;
            }
            proof {
                assert(span::funs_of(legs@).len() == legs@.len());
                assert(row.take(k as int) =~= row);
                assert(done1 + crate::theory::listing::cat(j + 1, f2) =~= (done1 + crate::theory::listing::cat(j as int, f2)) + f2(j as int));
            }
            j = j + 1;
        }
        proof {
            assert(f1(i as int) == crate::theory::listing::cat(n, f2));
        }
        i = i + 1;
    }
    out
}

/// The slice morphisms `x → y`, in lexicographic order of their tables.
pub open spec fn slice_hom(x: Over, y: Over) -> Seq<OverMor> {
    let fs = span::all_funs(x.total, y.total).filter(|m: Fun| y.leg.o(m) == x.leg);
    Seq::new(fs.len(), |k: int| OverMor { dom: x, cod: y, map: fs[k] })
}

/// Every slice morphism is listed once, and nothing else is.
pub proof fn law_slice_hom(x: Over, y: Over)
    requires
        x.wf(),
        y.wf(),
        x.base == y.base,
    ensures
        slice_hom(x, y).no_duplicates(),
        forall|m: OverMor| #[trigger] slice_hom(x, y).contains(m) <==> m.hom(x, y),
{
    let all = span::all_funs(x.total, y.total);
    let keep = |m: Fun| y.leg.o(m) == x.leg;
    let fs = all.filter(keep);
    span::lemma_all_funs(x.total, y.total);
    broadcast use vstd::seq_lib::group_seq_properties;
    lemma_filter_members(all, keep);
    crate::theory::listing::lemma_filter_distinct(all, keep);
    let listed = slice_hom(x, y);
    assert forall|i: int, j: int| 0 <= i < listed.len() && 0 <= j < listed.len() && i != j implies listed[i] != listed[j] by {
        assert(listed[i].map == fs[i] && listed[j].map == fs[j]);
    }
    assert forall|m: OverMor| m.hom(x, y) implies #[trigger] slice_hom(x, y).contains(m) by {
        assert(m.map.hom(x.total, y.total));
        assert(all.contains(m.map));
        assert(keep(m.map));
        assert(fs.contains(m.map));
        let k = choose|k: int| 0 <= k < fs.len() && fs[k] == m.map;
        assert(slice_hom(x, y)[k] == m);
    }
    assert forall|m: OverMor| #[trigger] slice_hom(x, y).contains(m) implies m.hom(x, y) by {
        let k = choose|k: int| 0 <= k < slice_hom(x, y).len() && slice_hom(x, y)[k] == m;
        assert(fs.contains(fs[k]));
        assert(all.contains(fs[k]) && keep(fs[k]));
        let j = choose|j: int| 0 <= j < all.len() && all[j] == fs[k];
        assert(all[j].hom(x.total, y.total));
    }
}

pub fn morphisms(dom: &SliceObj, cod: &SliceObj) -> (r: Vec<SliceMor>)
    requires
        dom.wf(),
        cod.wf(),
        dom.base == cod.base,
    ensures
        crate::theory::listing::views(r@) == slice_hom(dom@, cod@),
        forall|k: int| 0 <= k < r@.len() ==> (#[trigger] r@[k]).wf(),
{
    let all = finset::morphisms(dom.total, cod.total);
    let ghost keep = |m: Fun| cod@.leg.o(m) == dom@.leg;
    let ghost fs = span::all_funs(dom.total as int, cod.total as int);
    proof {
        assert(span::funs_of(all@) =~= fs);
        reveal(Seq::filter);
        assert(fs.take(0).filter(keep) =~= Seq::<Fun>::empty());
    }
    let mut out: Vec<SliceMor> = Vec::new();
    let mut k: usize = 0;
    while k < all.len()
        invariant
            k <= all.len(),
            dom.wf(),
            cod.wf(),
            dom.base == cod.base,
            keep == (|m: Fun| cod@.leg.o(m) == dom@.leg),
            fs == span::funs_of(all@),
            forall|j: int| 0 <= j < all@.len() ==> (#[trigger] all@[j])@.hom(dom.total as int, cod.total as int),
            out@.len() == fs.take(k as int).filter(keep).len(),
            forall|j: int| 0 <= j < out@.len() ==> (#[trigger] out@[j])@ == (OverMor {
                dom: dom@,
                cod: cod@,
                map: fs.take(k as int).filter(keep)[j],
            }),
            forall|j: int| 0 <= j < out@.len() ==> (#[trigger] out@[j]).wf(),
        decreases all.len() - k,
    {
        let map = all[k].clone();
        assert(all@[k as int]@.hom(dom.total as int, cod.total as int));
        proof {
            span::lemma_filter_step(fs, k as int, keep);
        }
        if finset::compose(&cod.leg, &map) == dom.leg {
            out.push(SliceMor { dom: dom.clone(), cod: cod.clone(), map });
        }
        k = k + 1;
    }
    proof {
        assert(fs.take(k as int) =~= fs);
        assert(crate::theory::listing::views(out@) =~= slice_hom(dom@, cod@));
    }
    out
}

/// The entries of a selection are the entries that satisfy the condition.
pub proof fn lemma_filter_members<T>(s: Seq<T>, keep: spec_fn(T) -> bool)
    ensures
        forall|x: T| #[trigger] s.filter(keep).contains(x) <==> s.contains(x) && keep(x),
    decreases s.len(),
{
    reveal(Seq::filter);
    if s.len() > 0 {
        lemma_filter_members(s.drop_last(), keep);
        let d = s.drop_last().filter(keep);
        assert forall|x: T| #[trigger] s.filter(keep).contains(x) implies s.contains(x) && keep(x) by {
            let k = choose|k: int| 0 <= k < s.filter(keep).len() && s.filter(keep)[k] == x;
            if k < d.len() {
                assert(d[k] == x);
                assert(d.contains(x));
                let j = choose|j: int| 0 <= j < s.drop_last().len() && s.drop_last()[j] == x;
                assert(s[j] == x);
            } else {
                assert(s[s.len() - 1] == x);
            }
        }
        assert forall|x: T| s.contains(x) && keep(x) implies #[trigger] s.filter(keep).contains(x) by {
            let j = choose|j: int| 0 <= j < s.len() && s[j] == x;
            if j < s.len() - 1 {
                assert(s.drop_last()[j] == x);
                assert(s.drop_last().contains(x));
                assert(d.contains(x));
                let k = choose|k: int| 0 <= k < d.len() && d[k] == x;
                assert(s.filter(keep)[k] == x);
            } else {
                assert(s.filter(keep)[d.len() as int] == x);
            }
        }
    } else {
        assert(s.filter(keep) =~= Seq::<T>::empty());
    }
}

/// `f* Y` for a span `f: A → B` and `Y → B`.
pub fn reindex_obj(f: &Span, y: &SliceObj) -> (r: SliceObj)
    requires
        f.wf(),
        y.wf(),
        f.right == y.base,
        f@.pull(y@).total <= u32::MAX,
    ensures
        r@ == f@.pull(y@),
        r.wf(),
{
    proof {
        crate::theory::slices::lemma_pull_wf(f@, y@);
    }
    let pb = finset::pullback(&f.to_right, &y.leg);
    SliceObj { base: f.left, total: pb.apex, leg: finset::compose(&f.to_left, &pb.to_left) }
}

pub fn reindex_mor(f: &Span, mor: &SliceMor) -> (r: SliceMor)
    requires
        f.wf(),
        mor.wf(),
        f.right == mor.dom.base,
        f@.pull(mor.dom@).total <= u32::MAX,
        f@.pull(mor.cod@).total <= u32::MAX,
    ensures
        r@ == f@.pull_mor(mor@),
        r.wf(),
{
    let dom = reindex_obj(f, &mor.dom);
    let cod = reindex_obj(f, &mor.cod);
    let pb_dom = finset::pullback(&f.to_right, &mor.dom.leg);
    let pb_cod = finset::pullback(&f.to_right, &mor.cod.leg);
    proof {
        crate::theory::slices::lemma_pull_wf(f@, mor.dom@);
        crate::theory::slices::lemma_pull_mor(f@, mor@);
    }
    let to_y = finset::compose(&mor.map, &pb_dom.to_right);
    proof {
        assert(finset::int_pairs(pb_cod.pairs@).len() == pb_cod.pairs@.len());
    }
    let map = finset::pullback_mediator(&pb_cod, &pb_dom.to_left, &to_y);
    SliceMor { dom, cod, map }
}

/// `θ_A(Y): Y → id_A* Y`.
pub fn theta_id(y: &SliceObj) -> (r: SliceMor)
    requires
        y.wf(),
    ensures
        r@ == OverMor::theta_id(y@),
        r.wf(),
{
    proof {
        crate::theory::slices::lemma_theta_id(y@);
        crate::theory::spans::lemma_pull_id_left(y.leg@);
    }
    let cod = reindex_obj(&span::identity(y.base), y);
    let pb = finset::pullback(&finset::id(y.base), &y.leg);
    proof {
        assert(finset::int_pairs(pb.pairs@).len() == pb.pairs@.len());
    }
    let map = finset::pullback_mediator(&pb, &y.leg, &finset::id(y.total));
    SliceMor { dom: y.clone(), cod, map }
}

/// Inverse of [`theta_id`].
pub fn theta_id_inv(y: &SliceObj) -> (r: SliceMor)
    requires
        y.wf(),
    ensures
        r@ == OverMor::theta_id_inv(y@),
        r.wf(),
{
    proof {
        crate::theory::slices::lemma_theta_id(y@);
        crate::theory::spans::lemma_pull_id_left(y.leg@);
    }
    let dom = reindex_obj(&span::identity(y.base), y);
    let pb = finset::pullback(&finset::id(y.base), &y.leg);
    SliceMor { dom, cod: y.clone(), map: pb.to_right }
}

/// `θ_{f,g}(Z): f*(g* Z) → (g ∘ f)* Z`.
pub fn theta_comp(f: &Span, g: &Span, z: &SliceObj) -> (r: SliceMor)
    requires
        crate::theory::slices::adjacent(f@, g@, z@),
        span::tri_fits(crate::theory::slices::slice_tri(f@, g@, z@)),
    ensures
        r@ == OverMor::theta(f@, g@, z@),
        r.wf(),
{
    proof {
        crate::theory::slices::lemma_theta(f@, g@, z@);
    }
    let gz = reindex_obj(g, z);
    let dom = reindex_obj(f, &gz);
    let gf = span::compose(g, f);
    let cod = reindex_obj(&gf, z);
    SliceMor { dom, cod, map: span::rebracket(&f.to_right, &g.to_left, &g.to_right, &z.leg) }
}

pub fn theta_comp_inv(f: &Span, g: &Span, z: &SliceObj) -> (r: SliceMor)
    requires
        crate::theory::slices::adjacent(f@, g@, z@),
        span::tri_fits(crate::theory::slices::slice_tri(f@, g@, z@)),
    ensures
        r@ == OverMor::theta_inv(f@, g@, z@),
        r.wf(),
{
    proof {
        crate::theory::slices::lemma_theta(f@, g@, z@);
    }
    let fwd = theta_comp(f, g, z);
    SliceMor { dom: fwd.cod.clone(), cod: fwd.dom.clone(), map: finset::inverse(&fwd.map) }
}

/// `L(m)_Y: f* Y → g* Y` for a 2-cell `m: f ⇒ g`.
pub fn act_two_cell(m: &TwoCell, from: &Span, to: &Span, y: &SliceObj) -> (r: SliceMor)
    requires
        crate::theory::slices::is_cell(m.map@, from@, to@),
        y.wf(),
        from.right == y.base,
        from@.pull(y@).total <= u32::MAX,
        to@.pull(y@).total <= u32::MAX,
    ensures
        r@ == OverMor::act(m.map@, from@, to@, y@),
        r.wf(),
{
    let dom = reindex_obj(from, y);
    let cod = reindex_obj(to, y);
    let pb_from = finset::pullback(&from.to_right, &y.leg);
    let pb_to = finset::pullback(&to.to_right, &y.leg);
    proof {
        crate::theory::slices::lemma_pull_wf(from@, y@);
        crate::theory::slices::lemma_act(m.map@, from@, to@, y@);
        assert(finset::int_pairs(pb_to.pairs@).len() == pb_to.pairs@.len());
    }
    let to_apex = finset::compose(&m.map, &pb_from.to_left);
    let map = finset::pullback_mediator(&pb_to, &to_apex, &pb_from.to_right);
    SliceMor { dom, cod, map }
}

// ----- coslices -----

#[derive(Eq, Debug)]
pub struct CosliceObj {
    pub base: u32,
    pub total: u32,
    /// `base → total`.
    pub leg: Mor,
}

impl View for CosliceObj {
    type V = Under;

    open spec fn view(&self) -> Under {
        Under { base: self.base as int, total: self.total as int, leg: self.leg@ }
    }
}

impl Clone for CosliceObj {
    fn clone(&self) -> (r: CosliceObj)
        ensures
            r@ == self@,
    {
        CosliceObj { base: self.base, total: self.total, leg: self.leg.clone() }
    }
}

impl PartialEq for CosliceObj {
    fn eq(&self, other: &CosliceObj) -> (r: bool) {
        self.base == other.base && self.total == other.total && self.leg == other.leg
    }
}

impl vstd::std_specs::cmp::PartialEqSpecImpl for CosliceObj {
    open spec fn obeys_eq_spec() -> bool {
        true
    }

    open spec fn eq_spec(&self, other: &CosliceObj) -> bool {
        self@ == other@
    }
}

impl CosliceObj {
    pub open spec fn wf(&self) -> bool {
        self@.wf()
    }

    /// Whether the leg joins the base and the total.
    pub fn check(&self) -> (ok: bool)
        ensures
            ok == self.wf(),
    {
        self.leg.check() && self.leg.dom == self.base && self.leg.cod == self.total
    }
}

#[derive(Eq, Debug)]
pub struct CosliceMor {
    pub dom: CosliceObj,
    pub cod: CosliceObj,
    pub map: Mor,
}

impl View for CosliceMor {
    type V = UnderMor;

    open spec fn view(&self) -> UnderMor {
        UnderMor { dom: self.dom@, cod: self.cod@, map: self.map@ }
    }
}

impl Clone for CosliceMor {
    fn clone(&self) -> (r: CosliceMor)
        ensures
            r@ == self@,
    {
        CosliceMor { dom: self.dom.clone(), cod: self.cod.clone(), map: self.map.clone() }
    }
}

impl PartialEq for CosliceMor {
    fn eq(&self, other: &CosliceMor) -> (r: bool) {
        self.dom == other.dom && self.cod == other.cod && self.map == other.map
    }
}

impl vstd::std_specs::cmp::PartialEqSpecImpl for CosliceMor {
    open spec fn obeys_eq_spec() -> bool {
        true
    }

    open spec fn eq_spec(&self, other: &CosliceMor) -> bool {
        self@ == other@
    }
}

impl CosliceMor {
    pub open spec fn wf(&self) -> bool {
        self@.wf()
    }

    /// Whether the map stays under one base.
    pub fn check(&self) -> (ok: bool)
        ensures
            ok == self.wf(),
    {
        if !(self.dom.check() && self.cod.check() && self.map.check() && self.dom.base == self.cod.base && self.map.dom
            == self.dom.total && self.map.cod == self.cod.total) {
            return false;
        }
        finset::compose(&self.map, &self.dom.leg) == self.cod.leg
    }
}

pub fn coslice_id(obj: &CosliceObj) -> (r: CosliceMor)
    ensures
        r@ == UnderMor::id(obj@),
{
    CosliceMor { dom: obj.clone(), cod: obj.clone(), map: finset::id(obj.total) }
}

pub fn cocompose(g: &CosliceMor, f: &CosliceMor) -> (r: CosliceMor)
    requires
        f.map.wf(),
        g.map.wf(),
        f.map.cod == g.map.dom,
        f.cod@ == g.dom@,
    ensures
        r@ == g@.o(f@),
{
    CosliceMor { dom: f.dom.clone(), cod: g.cod.clone(), map: finset::compose(&g.map, &f.map) }
}

/// The coslices with base and total below `n`, in order.
pub open spec fn all_coslices(n: int) -> Seq<Under> {
    crate::theory::listing::cat(n, |base: int| crate::theory::listing::cat(n, |total: int| coslice_block(base, total)))
}

/// The coslices with the given base and total, in order of their legs.
pub open spec fn coslice_block(base: int, total: int) -> Seq<Under> {
    let fs = span::all_funs(base, total);
    Seq::new(fs.len(), |k: int| Under { base, total, leg: fs[k] })
}

proof fn lemma_coslices_distinct(n: int)
    ensures
        all_coslices(n).no_duplicates(),
{
    let f1 = |base: int| crate::theory::listing::cat(n, |total: int| coslice_block(base, total));
    assert forall|base: int| 0 <= base < n implies (#[trigger] f1(base)).no_duplicates() && forall|k: int|
        0 <= k < f1(base).len() ==> (#[trigger] f1(base)[k]).base == base by {
        let f2 = |total: int| coslice_block(base, total);
        assert forall|total: int| 0 <= total < n implies (#[trigger] f2(total)).no_duplicates() by {
            span::lemma_all_funs(base, total);
            let (b, fs) = (f2(total), span::all_funs(base, total));
            assert forall|i: int, j: int| 0 <= i < b.len() && 0 <= j < b.len() && i != j implies b[i] != b[j] by {
                assert(b[i].leg == fs[i] && b[j].leg == fs[j]);
            }
        }
        crate::theory::listing::lemma_cat_labelled(n, f2, |s: Under| s.total, |i: int| i);
        crate::theory::listing::lemma_cat_all(n, f2, |s: Under| s.base == base);
    }
    crate::theory::listing::lemma_cat_labelled(n, f1, |s: Under| s.base, |i: int| i);
}

/// Every coslice with base and total below `n` is listed once, and nothing else
/// is.
pub proof fn law_all_coslices(n: int)
    ensures
        all_coslices(n).no_duplicates(),
        forall|s: Under| #[trigger] all_coslices(n).contains(s) <==> s.wf() && s.base < n && s.total < n,
{
    lemma_coslices_distinct(n);
    assert forall|s: Under| s.wf() && s.base < n && s.total < n implies #[trigger] all_coslices(n).contains(s) by {
        span::lemma_all_funs(s.leg.dom, s.leg.cod);
        let fs = span::all_funs(s.leg.dom, s.leg.cod);
        assert(fs.contains(s.leg));
        let i = choose|i: int| 0 <= i < fs.len() && fs[i] == s.leg;
        assert(coslice_block(s.base, s.total)[i] == s);
        let f2 = |total: int| coslice_block(s.base, total);
        assert(f2(s.total).contains(s));
        crate::theory::listing::lemma_cat(n, f2);
        let f1 = |base: int| crate::theory::listing::cat(n, |total: int| coslice_block(base, total));
        assert(f1(s.base).contains(s));
        crate::theory::listing::lemma_cat(n, f1);
    }
    assert forall|s: Under| #[trigger] all_coslices(n).contains(s) implies s.wf() && s.base < n && s.total < n by {
        let f1 = |base: int| crate::theory::listing::cat(n, |total: int| coslice_block(base, total));
        crate::theory::listing::lemma_cat(n, f1);
        let all = all_coslices(n);
        let k = choose|k: int| 0 <= k < all.len() && all[k] == s;
        let base = choose|base: int| 0 <= base < n && (#[trigger] f1(base)).contains(all[k]);
        let f2 = |total: int| coslice_block(base, total);
        crate::theory::listing::lemma_cat(n, f2);
        let c1 = f1(base);
        let k1 = choose|k1: int| 0 <= k1 < c1.len() && c1[k1] == s;
        let total = choose|total: int| 0 <= total < n && (#[trigger] f2(total)).contains(c1[k1]);
        span::lemma_all_funs(base, total);
        let fs = span::all_funs(base, total);
        let row = coslice_block(base, total);
        let j = choose|j: int| 0 <= j < row.len() && row[j] == s;
        assert(fs[j].wf());
    }
}

pub fn coslice_objects_up_to(max: u32) -> (r: Vec<CosliceObj>)
    ensures
        crate::theory::listing::views(r@) == all_coslices(max + 1),
{
    let cards = finset::objects_up_to(max);
    let ghost n = max + 1;
    let ghost f1 = |base: int| crate::theory::listing::cat(n, |total: int| coslice_block(base, total));
    let mut out: Vec<CosliceObj> = Vec::new();
    let mut i: usize = 0;
    assert(crate::theory::listing::views(out@) =~= crate::theory::listing::cat(0, f1));
    while i < cards.len()
        invariant
            n == max + 1,
            cards@ == Seq::new(max as nat + 1, |k: int| k as u32),
            i <= cards.len(),
            f1 == (|base: int| crate::theory::listing::cat(n, |total: int| coslice_block(base, total))),
            crate::theory::listing::views(out@) == crate::theory::listing::cat(i as int, f1),
        decreases cards.len() - i,
    {
        let base: u32 = cards[i];
        let ghost done1 = crate::theory::listing::views(out@);
        let ghost f2 = |total: int| coslice_block(base as int, total);
        let mut j: usize = 0;
        assert(done1 + crate::theory::listing::cat(0, f2) =~= done1);
        while j < cards.len()
            invariant
                n == max + 1,
                cards@ == Seq::new(max as nat + 1, |k: int| k as u32),
                j <= cards.len(),
                f2 == (|total: int| coslice_block(base as int, total)),
                crate::theory::listing::views(out@) == done1 + crate::theory::listing::cat(j as int, f2),
            decreases cards.len() - j,
        {
            let total: u32 = cards[j];
            let legs = finset::morphisms(base, total);
            let ghost row = coslice_block(base as int, total as int);
            let ghost done2 = crate::theory::listing::views(out@);
            let mut k: usize = 0;
            proof {
                assert(done2 + row.take(0) =~= done2);
                assert(span::funs_of(legs@) =~= span::all_funs(base as int, total as int));
            }
            while k < legs.len()
                invariant
                    k <= legs.len(),
                    span::funs_of(legs@) == span::all_funs(base as int, total as int),
                    row == coslice_block(base as int, total as int),
                    crate::theory::listing::views(out@) == done2 + row.take(k as int),
                decreases legs.len() - k,
            {
                let x = CosliceObj { base, total, leg: legs[k].clone() };
                proof {
                    crate::theory::listing::lemma_views_push(out@, x);
                    assert(span::funs_of(legs@)[k as int] == legs@[k as int]@);
                    assert(x@ =~= row[k as int]);
                    assert(done2 + row.take(k + 1) =~= (done2 + row.take(k as int)).push(x@));
                }
                out.push(x);
                k = k + 1;
            }
            proof {
                assert(span::funs_of(legs@).len() == legs@.len());
                assert(row.take(k as int) =~= row);
                assert(done1 + crate::theory::listing::cat(j + 1, f2) =~= (done1 + crate::theory::listing::cat(j as int, f2)) + f2(j as int));
            }
            j = j + 1;
        }
        proof {
            assert(f1(i as int) == crate::theory::listing::cat(n, f2));
        }
        i = i + 1;
    }
    out
}

/// The coslice morphisms `x → y`, in lexicographic order of their tables.
pub open spec fn coslice_hom(x: Under, y: Under) -> Seq<UnderMor> {
    let fs = span::all_funs(x.total, y.total).filter(|m: Fun| m.o(x.leg) == y.leg);
    Seq::new(fs.len(), |k: int| UnderMor { dom: x, cod: y, map: fs[k] })
}

/// Every coslice morphism is listed once, and nothing else is.
pub proof fn law_coslice_hom(x: Under, y: Under)
    requires
        x.wf(),
        y.wf(),
        x.base == y.base,
    ensures
        coslice_hom(x, y).no_duplicates(),
        forall|m: UnderMor| #[trigger] coslice_hom(x, y).contains(m) <==> m.hom(x, y),
{
    let all = span::all_funs(x.total, y.total);
    let keep = |m: Fun| m.o(x.leg) == y.leg;
    let fs = all.filter(keep);
    span::lemma_all_funs(x.total, y.total);
    broadcast use vstd::seq_lib::group_seq_properties;
    lemma_filter_members(all, keep);
    crate::theory::listing::lemma_filter_distinct(all, keep);
    let listed = coslice_hom(x, y);
    assert forall|i: int, j: int| 0 <= i < listed.len() && 0 <= j < listed.len() && i != j implies listed[i] != listed[j] by {
        assert(listed[i].map == fs[i] && listed[j].map == fs[j]);
    }
    assert forall|m: UnderMor| m.hom(x, y) implies #[trigger] coslice_hom(x, y).contains(m) by {
        assert(m.map.hom(x.total, y.total));
        assert(all.contains(m.map));
        assert(keep(m.map));
        assert(fs.contains(m.map));
        let k = choose|k: int| 0 <= k < fs.len() && fs[k] == m.map;
        assert(coslice_hom(x, y)[k] == m);
    }
    assert forall|m: UnderMor| #[trigger] coslice_hom(x, y).contains(m) implies m.hom(x, y) by {
        let k = choose|k: int| 0 <= k < coslice_hom(x, y).len() && coslice_hom(x, y)[k] == m;
        assert(fs.contains(fs[k]));
        assert(all.contains(fs[k]) && keep(fs[k]));
        let j = choose|j: int| 0 <= j < all.len() && all[j] == fs[k];
        assert(all[j].hom(x.total, y.total));
    }
}

pub fn coslice_morphisms(dom: &CosliceObj, cod: &CosliceObj) -> (r: Vec<CosliceMor>)
    requires
        dom.wf(),
        cod.wf(),
        dom.base == cod.base,
    ensures
        crate::theory::listing::views(r@) == coslice_hom(dom@, cod@),
        forall|k: int| 0 <= k < r@.len() ==> (#[trigger] r@[k]).wf(),
{
    let all = finset::morphisms(dom.total, cod.total);
    let ghost keep = |m: Fun| m.o(dom@.leg) == cod@.leg;
    let ghost fs = span::all_funs(dom.total as int, cod.total as int);
    proof {
        assert(span::funs_of(all@) =~= fs);
        reveal(Seq::filter);
        assert(fs.take(0).filter(keep) =~= Seq::<Fun>::empty());
    }
    let mut out: Vec<CosliceMor> = Vec::new();
    let mut k: usize = 0;
    while k < all.len()
        invariant
            k <= all.len(),
            dom.wf(),
            cod.wf(),
            dom.base == cod.base,
            keep == (|m: Fun| m.o(dom@.leg) == cod@.leg),
            fs == span::funs_of(all@),
            forall|j: int| 0 <= j < all@.len() ==> (#[trigger] all@[j])@.hom(dom.total as int, cod.total as int),
            out@.len() == fs.take(k as int).filter(keep).len(),
            forall|j: int| 0 <= j < out@.len() ==> (#[trigger] out@[j])@ == (UnderMor {
                dom: dom@,
                cod: cod@,
                map: fs.take(k as int).filter(keep)[j],
            }),
            forall|j: int| 0 <= j < out@.len() ==> (#[trigger] out@[j]).wf(),
        decreases all.len() - k,
    {
        let map = all[k].clone();
        assert(all@[k as int]@.hom(dom.total as int, cod.total as int));
        proof {
            span::lemma_filter_step(fs, k as int, keep);
        }
        if finset::compose(&map, &dom.leg) == cod.leg {
            out.push(CosliceMor { dom: dom.clone(), cod: cod.clone(), map });
        }
        k = k + 1;
    }
    proof {
        assert(fs.take(k as int) =~= fs);
        assert(crate::theory::listing::views(out@) =~= coslice_hom(dom@, cod@));
    }
    out
}

/// Reindex a coslice `B → Y` along a cospan `A → M ← B`.
pub fn reindex_coslice(f: &Cospan, y: &CosliceObj) -> (r: CosliceObj)
    requires
        f.wf(),
        y.wf(),
        f.right == y.base,
        y.total + f.apex <= u32::MAX,
    ensures
        r@ == f@.push(y@),
        r.wf(),
{
    proof {
        crate::theory::coslices::lemma_push_wf(f@, y@);
    }
    let po = finset::pushout(&y.leg, &f.from_right);
    CosliceObj { base: f.left, total: po.apex, leg: finset::compose(&po.from_right, &f.from_left) }
}

pub fn reindex_coslice_mor(f: &Cospan, mor: &CosliceMor) -> (r: CosliceMor)
    requires
        f.wf(),
        mor.wf(),
        f.right == mor.dom.base,
        mor.dom.total + f.apex <= u32::MAX,
        mor.cod.total + f.apex <= u32::MAX,
    ensures
        r@ == f@.push_mor(mor@),
        r.wf(),
{
    let dom = reindex_coslice(f, &mor.dom);
    let cod = reindex_coslice(f, &mor.cod);
    let po_dom = finset::pushout(&mor.dom.leg, &f.from_right);
    let po_cod = finset::pushout(&mor.cod.leg, &f.from_right);
    proof {
        crate::theory::coslices::lemma_push_wf(f@, mor.dom@);
        crate::theory::coslices::lemma_push_wf(f@, mor.cod@);
        crate::theory::coslices::lemma_push_mor(f@, mor@);
        crate::theory::colimits::lemma_push(mor.dom@.leg, f@.from_right);
    }
    // Y → pushout_cod via the morphism, and M → pushout_cod via the shared right leg.
    let from_y = finset::compose(&po_cod.from_left, &mor.map);
    let map = finset::pushout_mediator(&po_dom, &from_y, &po_cod.from_right, mor.dom.total);
    CosliceMor { dom, cod, map }
}

/// `θ` for coslices: `Y → id* Y`, which is an isomorphism.
pub fn co_theta_id(y: &CosliceObj) -> (r: CosliceMor)
    requires
        y.wf(),
        y.total + y.base <= u32::MAX,
    ensures
        r@ == UnderMor::theta_id(y@),
        r.wf(),
{
    proof {
        crate::theory::coslices::lemma_co_theta_id(y@);
    }
    let cod = reindex_coslice(&span::coidentity(y.base), y);
    let po = finset::pushout(&y.leg, &finset::id(y.base));
    CosliceMor { dom: y.clone(), cod, map: po.from_left }
}

/// Inverse of [`co_theta_id`], the direction used by the backward leg of an
/// identity optic.
pub fn co_theta_id_inv(y: &CosliceObj) -> (r: CosliceMor)
    requires
        y.wf(),
        y.total + y.base <= u32::MAX,
    ensures
        r@ == UnderMor::theta_id_inv(y@),
        r.wf(),
{
    proof {
        crate::theory::coslices::lemma_co_theta_id(y@);
    }
    let fwd = co_theta_id(y);
    let map = finset::inverse(&fwd.map);
    CosliceMor { dom: fwd.cod, cod: fwd.dom, map }
}

/// The nested pushouts of `M ← B → N ← C → Z` fit in machine words.
pub open spec fn quad_fits(t: Quad) -> bool {
    &&& t.zl.cod + t.gr.cod <= u32::MAX
    &&& t.zn().apex + t.fr.cod <= u32::MAX
    &&& t.fr.cod + t.gl.cod <= u32::MAX
    &&& t.zl.cod + t.mn().apex <= u32::MAX
}

/// `θ_{f,g}: f*(g* Z) → (g ∘ f)* Z` for coslice reindexing. Both sides are
/// pushouts of `Z` and the two apices; a class goes where any generator of it
/// goes.
pub fn co_theta_comp(f: &Cospan, g: &Cospan, z: &CosliceObj) -> (r: CosliceMor)
    requires
        crate::theory::coslices::coadjacent(f@, g@, z@),
        quad_fits(Quad::of(f@, g@, z@)),
    ensures
        r@ == UnderMor::theta(f@, g@, z@),
        r.wf(),
{
    let ghost t = Quad::of(f@, g@, z@);
    proof {
        crate::theory::coslices::lemma_co_theta(f@, g@, z@);
        crate::theory::coslices::lemma_quad_wf(t);
        crate::theory::coslices::lemma_quad(t);
        crate::theory::colimits::lemma_push(t.into_zn(), t.fr);
        crate::theory::colimits::lemma_push(t.zl, t.into_mn());
    }
    let gz = reindex_coslice(g, z);
    let dom = reindex_coslice(f, &gz);
    let gf = span::cocompose(g, f);
    let cod = reindex_coslice(&gf, z);
    let g_po = finset::pushout(&z.leg, &g.from_right);
    let dom_po = finset::pushout(&gz.leg, &f.from_right);
    let gf_po = finset::pushout(&f.from_right, &g.from_left);
    let cod_po = finset::pushout(&z.leg, &gf.from_right);
    // Generators into f*(g* Z).
    let z_into_dom = finset::compose(&dom_po.from_left, &g_po.from_left);
    let n_into_dom = finset::compose(&dom_po.from_left, &g_po.from_right);
    // Generators into (g ∘ f)* Z.
    let m_into_cod = finset::compose(&cod_po.from_right, &gf_po.from_left);
    let n_into_cod = finset::compose(&cod_po.from_right, &gf_po.from_right);
    let ghost u = t.fwd();
    proof {
        assert forall|i: int| 0 <= i < z_into_dom@.dom implies u.o(z_into_dom@).map[i] == cod_po@.from_left.map[i] by {
            assert(z_into_dom@.map[i] == dom_po@.from_left.map[g_po@.from_left.map[i]]);
        }
        assert(u.o(z_into_dom@) =~= cod_po.from_left@);
        assert forall|i: int| 0 <= i < n_into_dom@.dom implies u.o(n_into_dom@).map[i] == n_into_cod@.map[i] by {
            assert(n_into_dom@.map[i] == dom_po@.from_left.map[g_po@.from_right.map[i]]);
        }
        assert(u.o(n_into_dom@) =~= n_into_cod@);
        assert(u.o(dom_po.from_right@) =~= m_into_cod@);
    }
    let gens: [&Mor; 3] = [&z_into_dom, &n_into_dom, &dom_po.from_right];
    let images: [&Mor; 3] = [&cod_po.from_left, &n_into_cod, &m_into_cod];
    proof {
        assert forall|c: int| 0 <= c < u.dom implies #[trigger] span::reached(gens@, c) by {
            let s = crate::theory::colimits::lemma_push_cases(t.into_zn(), t.fr, c);
            if s.0 {
                let v = crate::theory::colimits::lemma_push_cases(t.zl, t.gr, s.1);
                if v.0 {
                    assert(gens@[0]@.map[v.1] == c);
                } else {
                    assert(gens@[1]@.map[v.1] == c);
                }
            } else {
                assert(gens@[2]@.map[s.1] == c);
            }
        }
    }
    CosliceMor { dom, cod, map: span::on_generators(gens, images, Ghost(u)) }
}

/// `f* Y → g* Y` for a 2-cell of cospans.
pub fn co_act_two_cell(m: &span::CoTwoCell, from: &Cospan, to: &Cospan, y: &CosliceObj) -> (r: CosliceMor)
    requires
        crate::theory::coslices::is_cocell(m.map@, from@, to@),
        y.wf(),
        from.right == y.base,
        y.total + from.apex <= u32::MAX,
        y.total + to.apex <= u32::MAX,
    ensures
        r@ == UnderMor::act(m.map@, from@, to@, y@),
        r.wf(),
{
    let dom = reindex_coslice(from, y);
    let cod = reindex_coslice(to, y);
    let po_from = finset::pushout(&y.leg, &from.from_right);
    let po_to = finset::pushout(&y.leg, &to.from_right);
    proof {
        crate::theory::coslices::lemma_push_wf(from@, y@);
        crate::theory::coslices::lemma_push_wf(to@, y@);
        crate::theory::coslices::lemma_co_act(m.map@, from@, to@, y@);
        crate::theory::colimits::lemma_push(y@.leg, from@.from_right);
    }
    // Y stays, the apex of the cospan is sent along the 2-cell.
    let to_apex = finset::compose(&po_to.from_right, &m.map);
    let map = finset::pushout_mediator(&po_from, &po_to.from_left, &to_apex, y.total);
    CosliceMor { dom, cod, map }
}

/// Decompose `X → A ⊔ B` into the pair of pullbacks along the injections.
/// Returns `(X_A, X_B, iso: X → X_A ⊔ X_B)`.
pub fn lextensive_split(leg: &Mor, left: u32) -> (r: (SliceObj, SliceObj, Mor))
    requires
        leg.wf(),
        left <= leg.cod,
    ensures
        r.0@ == crate::theory::slices::split_left(leg@, left as int),
        r.1@ == crate::theory::slices::split_right(leg@, left as int),
        r.2@ == crate::theory::slices::split_iso(leg@, left as int),
{
    let ghost lf = leg@;
    let ghost pl = crate::theory::slices::split_pull_left(lf, left as int);
    let ghost pr = crate::theory::slices::split_pull_right(lf, left as int);
    proof {
        crate::theory::slices::law_lextensive(lf, left as int);
    }
    let right: u32 = leg.cod - left;
    let cop = finset::coproduct(left, right);
    let pb_l = finset::pullback(leg, &cop.inl);
    let pb_r = finset::pullback(leg, &cop.inr);
    proof {
        crate::theory::limits::lemma_pull(lf, cop.inl@);
        crate::theory::limits::lemma_pull(lf, cop.inr@);
        assert(finset::int_pairs(pb_l.pairs@).len() == pb_l.pairs@.len());
        assert(finset::int_pairs(pb_r.pairs@).len() == pb_r.pairs@.len());
    }
    let mut map: Vec<u32> = vec![0; leg.dom as usize];
    let mut i: u32 = 0;
    while i < pb_l.apex
        invariant
            i <= pb_l.apex,
            lf == leg@,
            lf.wf(),
            pb_l@ == pl,
            pl.apex == pl.pairs.len(),
            pb_l.apex == pb_l.pairs@.len(),
            map@.len() == leg.dom,
            forall|k: int| 0 <= k < pl.apex ==> 0 <= (#[trigger] pl.pairs[k]).0 < lf.dom && lf.map[pl.pairs[k].0] < left,
            forall|k: int, l: int| 0 <= k < pl.apex && 0 <= l < pl.apex && (#[trigger] pl.pairs[k]).0 == (#[trigger] pl.pairs[l]).0 ==> k == l,
            forall|k: int| 0 <= k < i ==> map@[(#[trigger] pl.pairs[k]).0] == k,
        decreases pb_l.apex - i,
    {
        let p: (u32, u32) = pb_l.pairs[i as usize];
        assert(pl.pairs[i as int] == (p.0 as int, p.1 as int));
        map.set(p.0 as usize, i);
        i = i + 1;
    }
    let mut j: u32 = 0;
    while j < pb_r.apex
        invariant
            j <= pb_r.apex,
            lf == leg@,
            lf.wf(),
            pb_l@ == pl,
            pb_r@ == pr,
            pr.apex == pr.pairs.len(),
            pb_r.apex == pb_r.pairs@.len(),
            pl.apex + pr.apex == leg.dom,
            map@.len() == leg.dom,
            forall|k: int| 0 <= k < pl.apex ==> 0 <= (#[trigger] pl.pairs[k]).0 < lf.dom && lf.map[pl.pairs[k].0] < left,
            forall|k: int| 0 <= k < pr.apex ==> 0 <= (#[trigger] pr.pairs[k]).0 < lf.dom && lf.map[pr.pairs[k].0] >= left,
            forall|k: int, l: int| 0 <= k < pr.apex && 0 <= l < pr.apex && (#[trigger] pr.pairs[k]).0 == (#[trigger] pr.pairs[l]).0 ==> k == l,
            forall|k: int| 0 <= k < pl.apex ==> map@[(#[trigger] pl.pairs[k]).0] == k,
            forall|k: int| 0 <= k < j ==> map@[(#[trigger] pr.pairs[k]).0] == pl.apex + k,
        decreases pb_r.apex - j,
    {
        let p: (u32, u32) = pb_r.pairs[j as usize];
        assert(pr.pairs[j as int] == (p.0 as int, p.1 as int));
        map.set(p.0 as usize, pb_l.apex + j);
        j = j + 1;
    }
    let iso = Mor { dom: leg.dom, cod: pb_l.apex + pb_r.apex, map };
    proof {
        let want = crate::theory::slices::split_iso(lf, left as int);
        assert forall|x: int| 0 <= x < leg.dom implies iso@.map[x] == want.map[x] by {
            crate::theory::slices::lemma_split_listed(lf, left as int, x);
        }
        assert(iso@ =~= want);
    }
    let x_a = SliceObj { base: left, total: pb_l.apex, leg: pb_l.to_right };
    let x_b = SliceObj { base: right, total: pb_r.apex, leg: pb_r.to_right };
    (x_a, x_b, iso)
}

} // verus!
