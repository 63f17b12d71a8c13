//! Bicategories of spans and cospans in [`crate::finset`].
//!
//! A span `A → B` is an apex `M` with legs `M → A` and `M → B`. Composition is
//! a pullback. `Cospan` is the opposite bicategory: composition is a pushout.
//! The inclusion of a function `f: A → B` is the span `A ←id— A —f→ B`.
use vstd::prelude::*;
use crate::finset;
use crate::finset::Mor;
use crate::theory::fun::Fun;
use crate::theory::spans::Sp;
use crate::theory::spans::Tri;
use crate::theory::cospans::Cosp;

verus! {

/// A span `left ← apex → right`.
#[derive(Eq, Debug)]
pub struct Span {
    pub left: u32,
    pub right: u32,
    pub apex: u32,
    pub to_left: Mor,
    pub to_right: Mor,
}

impl View for Span {
    type V = Sp;

    open spec fn view(&self) -> Sp {
        Sp {
            left: self.left as int,
            right: self.right as int,
            apex: self.apex as int,
            to_left: self.to_left@,
            to_right: self.to_right@,
        }
    }
}

impl Clone for Span {
    fn clone(&self) -> (r: Span)
        ensures
            r@ == self@,
    {
        Span {
            left: self.left,
            right: self.right,
            apex: self.apex,
            to_left: self.to_left.clone(),
            to_right: self.to_right.clone(),
        }
    }
}

impl PartialEq for Span {
    fn eq(&self, other: &Span) -> (r: bool) {
        self.left == other.left && self.right == other.right && self.apex == other.apex && self.to_left == other.to_left
            && self.to_right == other.to_right
    }
}

impl vstd::std_specs::cmp::PartialEqSpecImpl for Span {
    open spec fn obeys_eq_spec() -> bool {
        true
    }

    open spec fn eq_spec(&self, other: &Span) -> bool {
        self@ == other@
    }
}

impl Span {
    /// Both legs start at the apex and end at their feet.
    pub open spec fn wf(&self) -> bool {
        self@.wf()
    }

    /// Whether both legs start at the apex and end at their feet.
    pub fn check(&self) -> (ok: bool)
        ensures
            ok == self.wf(),
    {
        self.to_left.check() && self.to_right.check() && self.to_left.dom == self.apex && self.to_right.dom == self.apex
            && self.to_left.cod == self.left && self.to_right.cod == self.right
    }
}

pub fn identity(a: u32) -> (r: Span)
    ensures
        r@ == Sp::id(a as int),
{
    Span { left: a, right: a, apex: a, to_left: finset::id(a), to_right: finset::id(a) }
}

/// `g ∘ f` for `f: A → B` and `g: B → C`. The apex is `M ×_B N`.
pub fn compose(g: &Span, f: &Span) -> (r: Span)
    requires
        f.wf(),
        g.wf(),
        f.right == g.left,
        Sp::comp(g@, f@).apex <= u32::MAX,
    ensures
        r@ == Sp::comp(g@, f@),
{
    proof {
        crate::theory::spans::lemma_comp_wf(g@, f@);
    }
    let pb = finset::pullback(&f.to_right, &g.to_left);
    Span {
        left: f.left,
        right: g.right,
        apex: pb.apex,
        to_left: finset::compose(&f.to_left, &pb.to_left),
        to_right: finset::compose(&g.to_right, &pb.to_right),
    }
}

/// A 2-cell `f ⇒ g` is a morphism of apices commuting with both legs.
#[derive(Eq, Debug)]
pub struct TwoCell {
    pub map: Mor,
}

impl Clone for TwoCell {
    fn clone(&self) -> (r: TwoCell)
        ensures
            r.map@ == self.map@,
    {
        TwoCell { map: self.map.clone() }
    }
}

impl PartialEq for TwoCell {
    fn eq(&self, other: &TwoCell) -> (r: bool) {
        self.map == other.map
    }
}

impl vstd::std_specs::cmp::PartialEqSpecImpl for TwoCell {
    open spec fn obeys_eq_spec() -> bool {
        true
    }

    open spec fn eq_spec(&self, other: &TwoCell) -> bool {
        self.map@ == other.map@
    }
}

/// The listing of all functions `dom → cod`.
pub open spec fn all_funs(dom: int, cod: int) -> Seq<Fun> {
    let ts = crate::theory::limits::tables(dom as nat, cod);
    Seq::new(ts.len(), |k: int| Fun { dom, cod, map: ts[k] })
}

/// The functions that a list of morphisms holds.
pub open spec fn funs_of(ms: Seq<Mor>) -> Seq<Fun> {
    Seq::new(ms.len(), |k: int| ms[k]@)
}

/// Every function is listed, once, and nothing else is.
pub proof fn lemma_all_funs(dom: int, cod: int)
    requires
        dom >= 0,
        cod >= 0,
    ensures
        forall|f: Fun| #[trigger] f.hom(dom, cod) ==> all_funs(dom, cod).contains(f),
        forall|k: int| 0 <= k < all_funs(dom, cod).len() ==> (#[trigger] all_funs(dom, cod)[k]).hom(dom, cod),
        all_funs(dom, cod).no_duplicates(),
{
    let ts = crate::theory::limits::tables(dom as nat, cod);
    let fs = all_funs(dom, cod);
    crate::theory::limits::law_tables(dom as nat, cod);
    assert forall|f: Fun| #[trigger] f.hom(dom, cod) implies fs.contains(f) by {
        assert(crate::theory::limits::is_table(f.map, dom, cod));
        assert(ts.contains(f.map));
        let k = choose|k: int| 0 <= k < ts.len() && ts[k] == f.map;
        assert(fs[k] == f);
    }
    assert forall|k: int| 0 <= k < fs.len() implies (#[trigger] fs[k]).hom(dom, cod) by {
        assert(crate::theory::limits::is_table(ts[k], dom, cod));
    }
    assert forall|i: int, j: int| 0 <= i < fs.len() && 0 <= j < fs.len() && i != j implies fs[i] != fs[j] by {
        if i < j {
            assert(crate::theory::limits::lex_less(ts[i], ts[j]));
        } else {
            assert(crate::theory::limits::lex_less(ts[j], ts[i]));
        }
    }
}

/// The 2-cells `from ⇒ to`, in lexicographic order of their tables.
pub open spec fn cells_of(from: Sp, to: Sp) -> Seq<Fun> {
    all_funs(from.apex, to.apex).filter(|m: Fun| from.cell(m, to))
}

/// The maps that a list of 2-cells holds.
pub open spec fn cell_maps(cs: Seq<TwoCell>) -> Seq<Fun> {
    Seq::new(cs.len(), |k: int| cs[k].map@)
}

pub fn two_cells(from: &Span, to: &Span) -> (r: Vec<TwoCell>)
    requires
        from.wf(),
        to.wf(),
        from.left == to.left,
        from.right == to.right,
    ensures
        cell_maps(r@) == cells_of(from@, to@),
{
    let all = finset::morphisms(from.apex, to.apex);
    let ghost keep = |m: Fun| from@.cell(m, to@);
    let ghost fs = all_funs(from.apex as int, to.apex as int);
    proof {
        assert(funs_of(all@) =~= fs);
        assert(fs.take(0) =~= Seq::<Fun>::empty());
        reveal(Seq::filter);
    }
    let mut out: Vec<TwoCell> = Vec::new();
    let mut k: usize = 0;
    assert(cell_maps(out@) =~= fs.take(0).filter(keep));
    while k < all.len()
        invariant
            k <= all.len(),
            from.wf(),
            to.wf(),
            keep == (|m: Fun| from@.cell(m, to@)),
            fs == funs_of(all@),
            forall|j: int| 0 <= j < all@.len() ==> (#[trigger] all@[j])@.hom(from.apex as int, to.apex as int),
            cell_maps(out@) == fs.take(k as int).filter(keep),
        decreases all.len() - k,
    {
        let map = all[k].clone();
        assert(all@[k as int]@.hom(from.apex as int, to.apex as int));
        let left_ok = finset::compose(&to.to_left, &map) == from.to_left;
        let right_ok = finset::compose(&to.to_right, &map) == from.to_right;
        let ghost before = out@;
        proof {
            lemma_filter_step(fs, k as int, keep);
        }
        if left_ok && right_ok {
            out.push(TwoCell { map });
            assert(cell_maps(out@) =~= cell_maps(before).push(map@));
        }
        k = k + 1;
    }
    assert(fs.take(k as int) =~= fs);
    out
}

/// Selecting from one entry more either keeps it at the end or drops it.
pub proof fn lemma_filter_step<T>(s: Seq<T>, k: int, keep: spec_fn(T) -> bool)
    requires
        0 <= k < s.len(),
    ensures
        s.take(k + 1).filter(keep) == if keep(s[k]) {
            s.take(k).filter(keep).push(s[k])
        } else {
            s.take(k).filter(keep)
        },
{
    reveal(Seq::filter);
    assert(s.take(k + 1).drop_last() =~= s.take(k));
    assert(s.take(k + 1).last() == s[k]);
}

pub fn id_two_cell(s: &Span) -> (r: TwoCell)
    ensures
        r.map@ == Fun::id(s.apex as int),
{
    TwoCell { map: finset::id(s.apex) }
}

pub fn vcompose(second: &TwoCell, first: &TwoCell) -> (r: TwoCell)
    requires
        first.map.wf(),
        second.map.wf(),
        first.map.cod == second.map.dom,
    ensures
        r.map@ == second.map@.o(first.map@),
{
    TwoCell { map: finset::compose(&second.map, &first.map) }
}

/// Image of a function `f: A → B` under `C → Span`.
pub fn include_morphism(f: &Mor) -> (r: Span)
    ensures
        r@ == Sp::of_fun(f@),
{
    Span { left: f.dom, right: f.cod, apex: f.dom, to_left: finset::id(f.dom), to_right: f.clone() }
}

/// Right unitor `ρ_f: f ∘ id_A → f`, as a 2-cell.
///
/// The composite apex consists of pairs `(a, m)` with `a = to_left(m)`.
pub fn right_unitor(f: &Span) -> (r: TwoCell)
    requires
        f.wf(),
    ensures
        r.map@ == Sp::rho(f@),
{
    proof {
        crate::theory::spans::lemma_pull_id_left(f.to_left@);
    }
    // comp apex enumerates (a, m) with id(a) = to_left(m), i.e. a = to_left(m).
    // The 2-cell comp → f sends that pair to m.
    let pb = finset::pullback(&finset::id(f.left), &f.to_left);
    TwoCell { map: pb.to_right }
}

/// Left unitor `λ_f: id_B ∘ f → f`.
pub fn left_unitor(f: &Span) -> (r: TwoCell)
    requires
        f.wf(),
    ensures
        r.map@ == Sp::lambda(f@),
{
    proof {
        crate::theory::spans::lemma_pull_id_right(f.to_right@);
    }
    let pb = finset::pullback(&f.to_right, &finset::id(f.right));
    TwoCell { map: pb.to_left }
}

/// The nested pullbacks of `M → B ← N → C ← P` fit in machine words.
pub open spec fn tri_fits(t: Tri) -> bool {
    &&& t.np().apex <= u32::MAX
    &&& t.mn().apex <= u32::MAX
    &&& t.right_nested().apex <= u32::MAX
    &&& t.left_nested().apex <= u32::MAX
}

/// `M ×_B (N ×_C P) → (M ×_B N) ×_C P`, matching the three components.
pub fn rebracket(fr: &Mor, gl: &Mor, gr: &Mor, hl: &Mor) -> (r: Mor)
    requires
        (Tri { fr: fr@, gl: gl@, gr: gr@, hl: hl@ }).wf(),
        tri_fits(Tri { fr: fr@, gl: gl@, gr: gr@, hl: hl@ }),
    ensures
        r@ == (Tri { fr: fr@, gl: gl@, gr: gr@, hl: hl@ }).fwd(),
{
    let ghost t = Tri { fr: fr@, gl: gl@, gr: gr@, hl: hl@ };
    proof {
        crate::theory::limits::lemma_pull(t.gr, t.hl);
        crate::theory::limits::lemma_pull(t.fr, t.gl);
        crate::theory::spans::lemma_tri(t);
    }
    let np = finset::pullback(gr, hl);
    let mn = finset::pullback(fr, gl);
    let from = finset::pullback(fr, &finset::compose(gl, &np.to_left));
    let to = finset::pullback(&finset::compose(gr, &mn.to_right), hl);
    let mut map: Vec<u32> = Vec::new();
    let mut i: u32 = 0;
    proof {
        crate::theory::limits::lemma_pull(t.fr, t.gl.o(t.np().to_left));
        crate::theory::limits::lemma_pull(t.gr.o(t.mn().to_right), t.hl);
        assert(int_len(from.pairs@) && int_len(np.pairs@) && int_len(mn.pairs@) && int_len(to.pairs@));
    }
    while i < from.apex
        invariant
            i <= from.apex,
            t.wf(),
            tri_fits(t),
            np@ == t.np(),
            mn@ == t.mn(),
            from@ == t.right_nested(),
            to@ == t.left_nested(),
            from@.to_left.wf(),
            from@.to_right.wf(),
            np@.to_left.wf(),
            np@.to_right.wf(),
            from@.to_left.dom == from.apex,
            from@.to_right.dom == from.apex,
            from@.to_right.cod == np.apex,
            np@.to_left.dom == np.apex,
            np@.to_right.dom == np.apex,
            mn.pairs@.len() <= u32::MAX,
            to.pairs@.len() <= u32::MAX,
            map@.len() == i,
            forall|j: int| 0 <= j < i ==> map@[j] == t.fwd().map[j],
        decreases from.apex - i,
    {
        proof {
            crate::theory::spans::lemma_tri_at(t, i as int);
        }
        let m: u32 = from.to_left.apply(i);
        let k: u32 = from.to_right.apply(i);
        let n: u32 = np.to_left.apply(k);
        let p: u32 = np.to_right.apply(k);
        let x: u32 = finset::pair_position(&mn, m, n);
        map.push(finset::pair_position(&to, x, p));
        i = i + 1;
    }
    let r = Mor { dom: from.apex, cod: to.apex, map };
    assert(r@ =~= t.fwd());
    r
}

spec fn int_len(s: Seq<(u32, u32)>) -> bool {
    finset::int_pairs(s).len() == s.len()
}

/// Associator `α: (h ∘ g) ∘ f → h ∘ (g ∘ f)`.
///
/// An element of the left apex is a pair `(m, (n, p))`; the right apex is
/// `((m, n), p)`. The 2-cell matches the three components.
pub fn associator(h: &Span, g: &Span, f: &Span) -> (r: TwoCell)
    requires
        crate::theory::spans::composable(h@, g@, f@),
        tri_fits(crate::theory::spans::span_tri(h@, g@, f@)),
    ensures
        r.map@ == Sp::alpha(h@, g@, f@),
{
    TwoCell { map: rebracket(&f.to_right, &g.to_left, &g.to_right, &h.to_left) }
}

/// Whether the map commutes with both legs.
pub fn cell_commutes(cell: &TwoCell, from: &Span, to: &Span) -> (r: bool)
    requires
        from.wf(),
        to.wf(),
        cell.map.wf(),
        cell.map.cod == to.apex,
    ensures
        r == from@.cell(cell.map@, to@),
{
    finset::compose(&to.to_left, &cell.map) == from.to_left && finset::compose(&to.to_right, &cell.map) == from.to_right
}

/// A cospan `left → apex ← right`.
#[derive(Eq, Debug)]
pub struct Cospan {
    pub left: u32,
    pub right: u32,
    pub apex: u32,
    pub from_left: Mor,
    pub from_right: Mor,
}

impl View for Cospan {
    type V = Cosp;

    open spec fn view(&self) -> Cosp {
        Cosp {
            left: self.left as int,
            right: self.right as int,
            apex: self.apex as int,
            from_left: self.from_left@,
            from_right: self.from_right@,
        }
    }
}

impl Clone for Cospan {
    fn clone(&self) -> (r: Cospan)
        ensures
            r@ == self@,
    {
        Cospan {
            left: self.left,
            right: self.right,
            apex: self.apex,
            from_left: self.from_left.clone(),
            from_right: self.from_right.clone(),
        }
    }
}

impl PartialEq for Cospan {
    fn eq(&self, other: &Cospan) -> (r: bool) {
        self.left == other.left && self.right == other.right && self.apex == other.apex && self.from_left
            == other.from_left && self.from_right == other.from_right
    }
}

impl vstd::std_specs::cmp::PartialEqSpecImpl for Cospan {
    open spec fn obeys_eq_spec() -> bool {
        true
    }

    open spec fn eq_spec(&self, other: &Cospan) -> bool {
        self@ == other@
    }
}

impl Cospan {
    /// Both legs start at their feet and end at the apex.
    pub open spec fn wf(&self) -> bool {
        self@.wf()
    }

    /// Whether both legs start at their feet and end at the apex.
    pub fn check(&self) -> (ok: bool)
        ensures
            ok == self.wf(),
    {
        self.from_left.check() && self.from_right.check() && self.from_left.dom == self.left && self.from_right.dom
            == self.right && self.from_left.cod == self.apex && self.from_right.cod == self.apex
    }
}

pub fn coidentity(a: u32) -> (r: Cospan)
    ensures
        r@ == Cosp::id(a as int),
{
    Cospan { left: a, right: a, apex: a, from_left: finset::id(a), from_right: finset::id(a) }
}

/// `g ∘ f` for cospans, by pushout of the adjacent legs.
pub fn cocompose(g: &Cospan, f: &Cospan) -> (r: Cospan)
    requires
        f.wf(),
        g.wf(),
        f.right == g.left,
        f.apex + g.apex <= u32::MAX,
    ensures
        r@ == Cosp::comp(g@, f@),
{
    proof {
        crate::theory::cospans::lemma_cocomp_wf(g@, f@);
    }
    let po = finset::pushout(&f.from_right, &g.from_left);
    Cospan {
        left: f.left,
        right: g.right,
        apex: po.apex,
        from_left: finset::compose(&po.from_left, &f.from_left),
        from_right: finset::compose(&po.from_right, &g.from_right),
    }
}

#[derive(Eq, Debug)]
pub struct CoTwoCell {
    pub map: Mor,
}

impl Clone for CoTwoCell {
    fn clone(&self) -> (r: CoTwoCell)
        ensures
            r.map@ == self.map@,
    {
        CoTwoCell { map: self.map.clone() }
    }
}

impl PartialEq for CoTwoCell {
    fn eq(&self, other: &CoTwoCell) -> (r: bool) {
        self.map == other.map
    }
}

impl vstd::std_specs::cmp::PartialEqSpecImpl for CoTwoCell {
    open spec fn obeys_eq_spec() -> bool {
        true
    }

    open spec fn eq_spec(&self, other: &CoTwoCell) -> bool {
        self.map@ == other.map@
    }
}

/// The 2-cells `from ⇒ to` of cospans, in lexicographic order of their tables.
pub open spec fn cocells_of(from: Cosp, to: Cosp) -> Seq<Fun> {
    all_funs(from.apex, to.apex).filter(|m: Fun| from.cell(m, to))
}

/// The maps that a list of 2-cells of cospans holds.
pub open spec fn cocell_maps(cs: Seq<CoTwoCell>) -> Seq<Fun> {
    Seq::new(cs.len(), |k: int| cs[k].map@)
}

pub fn co_two_cells(from: &Cospan, to: &Cospan) -> (r: Vec<CoTwoCell>)
    requires
        from.wf(),
        to.wf(),
        from.left == to.left,
        from.right == to.right,
    ensures
        cocell_maps(r@) == cocells_of(from@, to@),
{
    let all = finset::morphisms(from.apex, to.apex);
    let ghost keep = |m: Fun| from@.cell(m, to@);
    let ghost fs = all_funs(from.apex as int, to.apex as int);
    proof {
        assert(funs_of(all@) =~= fs);
        assert(fs.take(0) =~= Seq::<Fun>::empty());
        reveal(Seq::filter);
    }
    let mut out: Vec<CoTwoCell> = Vec::new();
    let mut k: usize = 0;
    assert(cocell_maps(out@) =~= fs.take(0).filter(keep));
    while k < all.len()
        invariant
            k <= all.len(),
            from.wf(),
            to.wf(),
            keep == (|m: Fun| from@.cell(m, to@)),
            fs == funs_of(all@),
            forall|j: int| 0 <= j < all@.len() ==> (#[trigger] all@[j])@.hom(from.apex as int, to.apex as int),
            cocell_maps(out@) == fs.take(k as int).filter(keep),
        decreases all.len() - k,
    {
        let map = all[k].clone();
        assert(all@[k as int]@.hom(from.apex as int, to.apex as int));
        let left_ok = finset::compose(&map, &from.from_left) == to.from_left;
        let right_ok = finset::compose(&map, &from.from_right) == to.from_right;
        let ghost before = out@;
        proof {
            lemma_filter_step(fs, k as int, keep);
        }
        if left_ok && right_ok {
            out.push(CoTwoCell { map });
            assert(cocell_maps(out@) =~= cocell_maps(before).push(map@));
        }
        k = k + 1;
    }
    assert(fs.take(k as int) =~= fs);
    out
}

pub fn co_right_unitor(f: &Cospan) -> (r: CoTwoCell)
    requires
        f.wf(),
        f.left + f.apex <= u32::MAX,
    ensures
        r.map@ == Cosp::rho(f@),
{
    // The composite with the identity is the pushout of id along from_left,
    // whose leg out of the apex of f is invertible.
    let po = finset::pushout(&finset::id(f.left), &f.from_left);
    proof {
        crate::theory::cospans::lemma_push_id_left(f.from_left@);
    }
    CoTwoCell { map: finset::inverse(&po.from_right) }
}

pub fn co_left_unitor(f: &Cospan) -> (r: CoTwoCell)
    requires
        f.wf(),
        f.right + f.apex <= u32::MAX,
    ensures
        r.map@ == Cosp::lambda(f@),
{
    let po = finset::pushout(&f.from_right, &finset::id(f.right));
    proof {
        crate::theory::cospans::lemma_push_id_right(f.from_right@);
    }
    CoTwoCell { map: finset::inverse(&po.from_left) }
}

/// `c` is a value of one of the functions.
pub(crate) open spec fn reached(a: Seq<&Mor>, c: int) -> bool {
    exists|k: int, i: int| 0 <= k < a.len() && 0 <= i < a[k]@.dom && #[trigger] a[k]@.map[i] == c
}

/// The function `u` out of the common codomain of three jointly onto
/// functions that sends `a_k(i)` to `b_k(i)`. Each class takes the image of
/// the first generator that reaches it.
pub(crate) fn on_generators(a: [&Mor; 3], b: [&Mor; 3], u: Ghost<Fun>) -> (r: Mor)
    requires
        u@.wf(),
        u@.dom <= u32::MAX,
        u@.cod <= u32::MAX,
        forall|k: int| 0 <= k < 3 ==> {
            let x = #[trigger] a@[k];
            let y = b@[k];
            &&& x.wf()
            &&& y.wf()
            &&& x@.cod == u@.dom
            &&& y@.cod == u@.cod
            &&& x@.dom == y@.dom
            &&& u@.o(x@) == y@
        },
        forall|c: int| 0 <= c < u@.dom ==> #[trigger] reached(a@, c),
    ensures
        r@ == u@,
{
    let n: u32 = a[0].cod;
    let w: u32 = b[0].cod;
    assert(a@[0].wf() && b@[0].wf());
    let mut map: Vec<u32> = vec![0; n as usize];
    let mut filled: Vec<bool> = vec![false; n as usize];
    let mut k: usize = 0;
    while k < 3
        invariant
            k <= 3,
            n == u@.dom,
            w == u@.cod,
            u@.wf(),
            map@.len() == n,
            filled@.len() == n,
            forall|j: int| 0 <= j < 3 ==> {
                let x = #[trigger] a@[j];
                let y = b@[j];
                &&& x.wf()
                &&& y.wf()
                &&& x@.cod == u@.dom
                &&& y@.cod == u@.cod
                &&& x@.dom == y@.dom
                &&& u@.o(x@) == y@
            },
            forall|c: int| 0 <= c < n && #[trigger] filled@[c] ==> map@[c] == u@.map[c],
            forall|j: int, i: int| 0 <= j < k && 0 <= i < a@[j]@.dom ==> filled@[#[trigger] a@[j]@.map[i]],
        decreases 3 - k,
    {
        let x: &Mor = a[k];
        let y: &Mor = b[k];
        assert(a@[k as int] == x && b@[k as int] == y);
        let mut i: u32 = 0;
        while i < x.dom
            invariant
                i <= x.dom,
                k < 3,
                n == u@.dom,
                u@.wf(),
                x.wf(),
                y.wf(),
                x@.cod == u@.dom,
                x@.dom == y@.dom,
                u@.o(x@) == y@,
                x == a@[k as int],
                map@.len() == n,
                filled@.len() == n,
                forall|c: int| 0 <= c < n && #[trigger] filled@[c] ==> map@[c] == u@.map[c],
                forall|j: int, l: int| 0 <= j < k && 0 <= l < a@[j]@.dom ==> 0 <= a@[j]@.map[l] < n && filled@[#[trigger] a@[j]@.map[l]],
                forall|l: int| 0 <= l < i ==> filled@[#[trigger] x@.map[l]],
            decreases x.dom - i,
        {
            let c: u32 = x.apply(i);
            assert(x@.map[i as int] == c);
            assert(u@.o(x@).map[i as int] == u@.map[c as int]);
            if !filled[c as usize] {
                map.set(c as usize, y.apply(i));
                filled.set(c as usize, true);
            }
            i = i + 1;
        }
        k = k + 1;
    }
    let r = Mor { dom: n, cod: w, map };
    proof {
        assert forall|c: int| 0 <= c < n implies r@.map[c] == u@.map[c] by {
            assert(reached(a@, c));
            let (j, i) = choose|j: int, i: int| 0 <= j < 3 && 0 <= i < a@[j]@.dom && #[trigger] a@[j]@.map[i] == c;
            assert(filled@[a@[j]@.map[i]]);
        }
        assert(r@ =~= u@);
    }
    r
}

/// Associator of cospans. Both apices are quotients of the coproduct of the
/// three apices; an element goes to the class of any generator it comes from.
pub fn co_associator(h: &Cospan, g: &Cospan, f: &Cospan) -> (r: CoTwoCell)
    requires
        crate::theory::cospans::cocomposable(h@, g@, f@),
        f.apex + g.apex <= u32::MAX,
        g.apex + h.apex <= u32::MAX,
        f.apex + Cosp::comp(h@, g@).apex <= u32::MAX,
        Cosp::comp(g@, f@).apex + h.apex <= u32::MAX,
    ensures
        r.map@ == Cosp::alpha(h@, g@, f@),
{
    let ghost t = crate::theory::cospans::cospan_tri(h@, g@, f@);
    proof {
        crate::theory::cospans::lemma_cotri_wf(t);
        crate::theory::cospans::lemma_cotri(t);
        crate::theory::cospans::lemma_cocomp_wf(h@, g@);
        crate::theory::cospans::lemma_cocomp_wf(g@, f@);
        crate::theory::colimits::lemma_push(t.fr, t.into_gh());
        crate::theory::colimits::lemma_push(t.into_fg(), t.hl);
    }
    let hg = cocompose(h, g);
    let gf = cocompose(g, f);
    let left_po = finset::pushout(&f.from_right, &hg.from_left);
    let right_po = finset::pushout(&gf.from_right, &h.from_left);
    let hg_po = finset::pushout(&g.from_right, &h.from_left);
    let gf_po = finset::pushout(&f.from_right, &g.from_left);
    // The apices of f, g and h in the left composite.
    let from_g = finset::compose(&left_po.from_right, &hg_po.from_left);
    let from_h = finset::compose(&left_po.from_right, &hg_po.from_right);
    // And in the right one.
    let to_f = finset::compose(&right_po.from_left, &gf_po.from_left);
    let to_g = finset::compose(&right_po.from_left, &gf_po.from_right);
    let ghost u = t.fwd();
    proof {
        assert(left_po@ == t.right_nested());
        assert(right_po@ == t.left_nested());
        assert(u.o(left_po.from_left@) =~= to_f@);
        assert forall|i: int| 0 <= i < from_g@.dom implies u.o(from_g@).map[i] == to_g@.map[i] by {
            assert(from_g@.map[i] == left_po@.from_right.map[hg_po@.from_left.map[i]]);
        }
        assert(u.o(from_g@) =~= to_g@);
        assert forall|i: int| 0 <= i < from_h@.dom implies u.o(from_h@).map[i] == right_po@.from_right.map[i] by {
            assert(from_h@.map[i] == left_po@.from_right.map[hg_po@.from_right.map[i]]);
        }
        assert(u.o(from_h@) =~= right_po.from_right@);
    }
    let gens: [&Mor; 3] = [&left_po.from_left, &from_g, &from_h];
    let images: [&Mor; 3] = [&to_f, &to_g, &right_po.from_right];
    proof {
        assert forall|c: int| 0 <= c < u.dom implies #[trigger] reached(gens@, c) by {
            let s = crate::theory::colimits::lemma_push_cases(t.fr, t.into_gh(), c);
            if s.0 {
                assert(gens@[0]@.map[s.1] == c);
            } else {
                let v = crate::theory::colimits::lemma_push_cases(t.gr, t.hl, s.1);
                if v.0 {
                    assert(gens@[1]@.map[v.1] == c);
                } else {
                    assert(gens@[2]@.map[v.1] == c);
                }
            }
        }
    }
    CoTwoCell { map: on_generators(gens, images, Ghost(u)) }
}


/// The spans with the given feet and apex, in order of their legs.
pub open spec fn span_block(left: int, right: int, apex: int) -> Seq<Sp> {
    let ls = all_funs(apex, left);
    let rs = all_funs(apex, right);
    crate::theory::listing::cat(
        ls.len() as int,
        |i: int| Seq::new(rs.len(), |j: int| Sp { left, right, apex, to_left: ls[i], to_right: rs[j] }),
    )
}

/// The spans with feet and apex of cardinality below `n`, in order.
pub open spec fn all_spans(n: int) -> Seq<Sp> {
    crate::theory::listing::cat(
        n,
        |left: int|
            crate::theory::listing::cat(
                n,
                |right: int| crate::theory::listing::cat(n, |apex: int| span_block(left, right, apex)),
            ),
    )
}

proof fn lemma_span_block_distinct(left: int, right: int, apex: int)
    requires
        left >= 0,
        right >= 0,
        apex >= 0,
    ensures
        span_block(left, right, apex).no_duplicates(),
        forall|k: int|
            0 <= k < span_block(left, right, apex).len() ==> {
                let s = #[trigger] span_block(left, right, apex)[k];
                s.left == left && s.right == right && s.apex == apex
            },
{
    let ls = all_funs(apex, left);
    let rs = all_funs(apex, right);
    lemma_all_funs(apex, left);
    lemma_all_funs(apex, right);
    let f = |i: int| Seq::new(rs.len(), |j: int| Sp { left, right, apex, to_left: ls[i], to_right: rs[j] });
    assert forall|i: int| 0 <= i < ls.len() implies (#[trigger] f(i)).no_duplicates() by {
        let row = f(i);
        assert forall|k: int, m: int| 0 <= k < row.len() && 0 <= m < row.len() && k != m implies row[k] != row[m] by {
            assert(row[k].to_right == rs[k] && row[m].to_right == rs[m]);
        }
    }
    crate::theory::listing::lemma_cat_labelled(ls.len() as int, f, |s: Sp| s.to_left, |i: int| ls[i]);
    crate::theory::listing::lemma_cat_all(ls.len() as int, f, |s: Sp| s.left == left && s.right == right && s.apex == apex);
}

proof fn lemma_spans_distinct(n: int)
    ensures
        all_spans(n).no_duplicates(),
{
    let f1 = |left: int|
        crate::theory::listing::cat(
            n,
            |right: int| crate::theory::listing::cat(n, |apex: int| span_block(left, right, apex)),
        );
    assert forall|left: int| 0 <= left < n implies (#[trigger] f1(left)).no_duplicates() && forall|k: int|
        0 <= k < f1(left).len() ==> (#[trigger] f1(left)[k]).left == left by {
        let f2 = |right: int| crate::theory::listing::cat(n, |apex: int| span_block(left, right, apex));
        assert forall|right: int| 0 <= right < n implies (#[trigger] f2(right)).no_duplicates() && forall|k: int|
            0 <= k < f2(right).len() ==> (#[trigger] f2(right)[k]).left == left && f2(right)[k].right == right by {
            let f3 = |apex: int| span_block(left, right, apex);
            assert forall|apex: int| 0 <= apex < n implies (#[trigger] f3(apex)).no_duplicates() && forall|k: int|
                0 <= k < f3(apex).len() ==> {
                    let s = #[trigger] f3(apex)[k];
                    s.left == left && s.right == right && s.apex == apex
                } by {
                lemma_span_block_distinct(left, right, apex);
            }
            crate::theory::listing::lemma_cat_labelled(n, f3, |s: Sp| s.apex, |i: int| i);
            crate::theory::listing::lemma_cat_all(n, f3, |s: Sp| s.left == left && s.right == right);
        }
        crate::theory::listing::lemma_cat_labelled(n, f2, |s: Sp| s.right, |i: int| i);
        crate::theory::listing::lemma_cat_all(n, f2, |s: Sp| s.left == left);
    }
    crate::theory::listing::lemma_cat_labelled(n, f1, |s: Sp| s.left, |i: int| i);
}

/// Every span with feet and apex of cardinality below `n` is listed once, and
/// nothing else is.
pub proof fn law_all_spans(n: int)
    ensures
        all_spans(n).no_duplicates(),
        forall|s: Sp| #[trigger] all_spans(n).contains(s) <==> s.wf() && s.left < n && s.right < n && s.apex < n,
{
    lemma_spans_distinct(n);
    assert forall|s: Sp| s.wf() && s.left < n && s.right < n && s.apex < n implies #[trigger] all_spans(n).contains(s) by {
        lemma_all_funs(s.to_left.dom, s.to_left.cod);
        lemma_all_funs(s.to_right.dom, s.to_right.cod);
        let ls = all_funs(s.to_left.dom, s.to_left.cod);
        let rs = all_funs(s.to_right.dom, s.to_right.cod);
        assert(ls.contains(s.to_left) && rs.contains(s.to_right));
        let i = choose|i: int| 0 <= i < ls.len() && ls[i] == s.to_left;
        let j = choose|j: int| 0 <= j < rs.len() && rs[j] == s.to_right;
        let inner = |k: int| Seq::new(rs.len(), |m: int| Sp { left: s.left, right: s.right, apex: s.apex, to_left: ls[k], to_right: rs[m] });
        assert(inner(i)[j] == s);
        assert(inner(i).contains(s));
        crate::theory::listing::lemma_cat(ls.len() as int, inner);
        assert(span_block(s.left, s.right, s.apex).contains(s));
        let f3 = |apex: int| span_block(s.left, s.right, apex);
        assert(f3(s.apex).contains(s));
        crate::theory::listing::lemma_cat(n, f3);
        let f2 = |right: int| crate::theory::listing::cat(n, |apex: int| span_block(s.left, right, apex));
        assert(f2(s.right).contains(s));
        crate::theory::listing::lemma_cat(n, f2);
        let f1 = |left: int|
            crate::theory::listing::cat(
                n,
                |right: int| crate::theory::listing::cat(n, |apex: int| span_block(left, right, apex)),
            );
        assert(f1(s.left).contains(s));
        crate::theory::listing::lemma_cat(n, f1);
    }
    assert forall|s: Sp| #[trigger] all_spans(n).contains(s) implies s.wf() && s.left < n && s.right < n && s.apex < n by {
        let f1 = |left: int|
            crate::theory::listing::cat(
                n,
                |right: int| crate::theory::listing::cat(n, |apex: int| span_block(left, right, apex)),
            );
        crate::theory::listing::lemma_cat(n, f1);
        let all = all_spans(n);
        let k = choose|k: int| 0 <= k < all.len() && all[k] == s;
        let left = choose|left: int| 0 <= left < n && (#[trigger] f1(left)).contains(all[k]);
        let f2 = |right: int| crate::theory::listing::cat(n, |apex: int| span_block(left, right, apex));
        crate::theory::listing::lemma_cat(n, f2);
        let c1 = f1(left);
        let k1 = choose|k1: int| 0 <= k1 < c1.len() && c1[k1] == s;
        let right = choose|right: int| 0 <= right < n && (#[trigger] f2(right)).contains(c1[k1]);
        let f3 = |apex: int| span_block(left, right, apex);
        crate::theory::listing::lemma_cat(n, f3);
        let c2 = f2(right);
        let k2 = choose|k2: int| 0 <= k2 < c2.len() && c2[k2] == s;
        let apex = choose|apex: int| 0 <= apex < n && (#[trigger] f3(apex)).contains(c2[k2]);
        let ls = all_funs(apex, left);
        let rs = all_funs(apex, right);
        lemma_all_funs(apex, left);
        lemma_all_funs(apex, right);
        let inner = |i: int| Seq::new(rs.len(), |m: int| Sp { left, right, apex, to_left: ls[i], to_right: rs[m] });
        crate::theory::listing::lemma_cat(ls.len() as int, inner);
        let c3 = span_block(left, right, apex);
        let k3 = choose|k3: int| 0 <= k3 < c3.len() && c3[k3] == s;
        let i = choose|i: int| 0 <= i < ls.len() && (#[trigger] inner(i)).contains(c3[k3]);
        let row = inner(i);
        let j = choose|j: int| 0 <= j < row.len() && row[j] == s;
        assert(ls[i].wf() && rs[j].wf());
    }
}

fn spans_at(left: u32, right: u32, apex: u32) -> (r: Vec<Span>)
    ensures
        crate::theory::listing::views(r@) == span_block(left as int, right as int, apex as int),
{
    let ls = finset::morphisms(apex, left);
    let rs = finset::morphisms(apex, right);
    let ghost fl = all_funs(apex as int, left as int);
    let ghost fr = all_funs(apex as int, right as int);
    let ghost block = |i: int|
        Seq::new(fr.len(), |j: int| Sp { left: left as int, right: right as int, apex: apex as int, to_left: fl[i], to_right: fr[j] });
    proof {
        assert(funs_of(ls@) =~= fl);
        assert(funs_of(rs@) =~= fr);
    }
    let mut out: Vec<Span> = Vec::new();
    let mut i: usize = 0;
    assert(crate::theory::listing::views(out@) =~= crate::theory::listing::cat(0, block));
    while i < ls.len()
        invariant
            i <= ls.len(),
            fl == funs_of(ls@),
            fr == funs_of(rs@),
            block == (|i: int|
                Seq::new(fr.len(), |j: int| Sp { left: left as int, right: right as int, apex: apex as int, to_left: fl[i], to_right: fr[j] })),
            crate::theory::listing::views(out@) == crate::theory::listing::cat(i as int, block),
        decreases ls.len() - i,
    {
        let ghost done = crate::theory::listing::views(out@);
        let mut j: usize = 0;
        assert(done + block(i as int).take(0) =~= done);
        while j < rs.len()
            invariant
                i < ls.len(),
                j <= rs.len(),
                fl == funs_of(ls@),
                fr == funs_of(rs@),
                block == (|i: int|
                    Seq::new(fr.len(), |j: int| Sp { left: left as int, right: right as int, apex: apex as int, to_left: fl[i], to_right: fr[j] })),
                crate::theory::listing::views(out@) == done + block(i as int).take(j as int),
            decreases rs.len() - j,
        {
            let x = Span { left, right, apex, to_left: ls[i].clone(), to_right: rs[j].clone() };
            proof {
                crate::theory::listing::lemma_views_push(out@, x);
                assert(x@ =~= block(i as int)[j as int]);
                assert(done + block(i as int).take(j + 1) =~= (done + block(i as int).take(j as int)).push(x@));
            }
            out.push(x);
            j = j + 1;
        }
        assert(block(i as int).take(j as int) =~= block(i as int));
        i = i + 1;
    }
    out
}

/// Spans with feet and apex of cardinality at most `max`.
pub fn spans_up_to(max: u32) -> (r: Vec<Span>)
    ensures
        crate::theory::listing::views(r@) == all_spans(max + 1),
{
    let cards = finset::objects_up_to(max);
    let ghost n = max + 1;
    let ghost f1 = |left: int|
        crate::theory::listing::cat(
            n,
            |right: int| crate::theory::listing::cat(n, |apex: int| span_block(left, right, apex)),
        );
    let mut out: Vec<Span> = Vec::new();
    let mut i: usize = 0;
    assert(crate::theory::listing::views(out@) =~= crate::theory::listing::cat(0, f1));
    while i < cards.len()
        invariant
            n == max + 1,
            cards@ == Seq::new(max as nat + 1, |k: int| k as u32),
            i <= cards.len(),
            f1 == (|left: int|
                crate::theory::listing::cat(
                    n,
                    |right: int| crate::theory::listing::cat(n, |apex: int| span_block(left, right, apex)),
                )),
            crate::theory::listing::views(out@) == crate::theory::listing::cat(i as int, f1),
        decreases cards.len() - i,
    {
        let left: u32 = cards[i];
        let ghost done1 = crate::theory::listing::views(out@);
        let ghost f2 = |right: int| crate::theory::listing::cat(n, |apex: int| span_block(left as int, right, apex));
        let mut j: usize = 0;
        assert(done1 + crate::theory::listing::cat(0, f2) =~= done1);
        while j < cards.len()
            invariant
                n == max + 1,
                cards@ == Seq::new(max as nat + 1, |k: int| k as u32),
                j <= cards.len(),
                f2 == (|right: int| crate::theory::listing::cat(n, |apex: int| span_block(left as int, right, apex))),
                crate::theory::listing::views(out@) == done1 + crate::theory::listing::cat(j as int, f2),
            decreases cards.len() - j,
        {
            let right: u32 = cards[j];
            let ghost done2 = crate::theory::listing::views(out@);
            let ghost f3 = |apex: int| span_block(left as int, right as int, apex);
            let mut k: usize = 0;
            assert(done2 + crate::theory::listing::cat(0, f3) =~= done2);
            while k < cards.len()
                invariant
                    n == max + 1,
                    cards@ == Seq::new(max as nat + 1, |k: int| k as u32),
                    k <= cards.len(),
                    f3 == (|apex: int| span_block(left as int, right as int, apex)),
                    crate::theory::listing::views(out@) == done2 + crate::theory::listing::cat(k as int, f3),
                decreases cards.len() - k,
            {
                let apex: u32 = cards[k];
                let mut block = spans_at(left, right, apex);
                proof {
                    crate::theory::listing::lemma_views_add(out@, block@);
                    assert(done2 + crate::theory::listing::cat(k + 1, f3) =~= (done2 + crate::theory::listing::cat(k as int, f3)) + f3(k as int));
                }
                out.append(&mut block);
                k = k + 1;
            }
            proof {
                assert(f2(j as int) == crate::theory::listing::cat(n, f3));
                assert(done1 + crate::theory::listing::cat(j + 1, f2) =~= (done1 + crate::theory::listing::cat(j as int, f2)) + f2(j as int));
            }
            j = j + 1;
        }
        proof {
            assert(f1(i as int) == crate::theory::listing::cat(n, f2));
        }
        i = i + 1;
    }
    out
}

/// The cospans with the given feet and apex, in order of their legs.
pub open spec fn cospan_block(left: int, right: int, apex: int) -> Seq<Cosp> {
    let ls = all_funs(left, apex);
    let rs = all_funs(right, apex);
    crate::theory::listing::cat(
        ls.len() as int,
        |i: int| Seq::new(rs.len(), |j: int| Cosp { left, right, apex, from_left: ls[i], from_right: rs[j] }),
    )
}

/// The cospans with feet and apex of cardinality below `n`, in order.
pub open spec fn all_cospans(n: int) -> Seq<Cosp> {
    crate::theory::listing::cat(
        n,
        |left: int|
            crate::theory::listing::cat(
                n,
                |right: int| crate::theory::listing::cat(n, |apex: int| cospan_block(left, right, apex)),
            ),
    )
}

proof fn lemma_cospan_block_distinct(left: int, right: int, apex: int)
    requires
        left >= 0,
        right >= 0,
        apex >= 0,
    ensures
        cospan_block(left, right, apex).no_duplicates(),
        forall|k: int|
            0 <= k < cospan_block(left, right, apex).len() ==> {
                let s = #[trigger] cospan_block(left, right, apex)[k];
                s.left == left && s.right == right && s.apex == apex
            },
{
    let ls = all_funs(left, apex);
    let rs = all_funs(right, apex);
    lemma_all_funs(left, apex);
    lemma_all_funs(right, apex);
    let f = |i: int| Seq::new(rs.len(), |j: int| Cosp { left, right, apex, from_left: ls[i], from_right: rs[j] });
    assert forall|i: int| 0 <= i < ls.len() implies (#[trigger] f(i)).no_duplicates() by {
        let row = f(i);
        assert forall|k: int, m: int| 0 <= k < row.len() && 0 <= m < row.len() && k != m implies row[k] != row[m] by {
            assert(row[k].from_right == rs[k] && row[m].from_right == rs[m]);
        }
    }
    crate::theory::listing::lemma_cat_labelled(ls.len() as int, f, |s: Cosp| s.from_left, |i: int| ls[i]);
    crate::theory::listing::lemma_cat_all(ls.len() as int, f, |s: Cosp| s.left == left && s.right == right && s.apex == apex);
}

proof fn lemma_cospans_distinct(n: int)
    ensures
        all_cospans(n).no_duplicates(),
{
    let f1 = |left: int|
        crate::theory::listing::cat(
            n,
            |right: int| crate::theory::listing::cat(n, |apex: int| cospan_block(left, right, apex)),
        );
    assert forall|left: int| 0 <= left < n implies (#[trigger] f1(left)).no_duplicates() && forall|k: int|
        0 <= k < f1(left).len() ==> (#[trigger] f1(left)[k]).left == left by {
        let f2 = |right: int| crate::theory::listing::cat(n, |apex: int| cospan_block(left, right, apex));
        assert forall|right: int| 0 <= right < n implies (#[trigger] f2(right)).no_duplicates() && forall|k: int|
            0 <= k < f2(right).len() ==> (#[trigger] f2(right)[k]).left == left && f2(right)[k].right == right by {
            let f3 = |apex: int| cospan_block(left, right, apex);
            assert forall|apex: int| 0 <= apex < n implies (#[trigger] f3(apex)).no_duplicates() && forall|k: int|
                0 <= k < f3(apex).len() ==> {
                    let s = #[trigger] f3(apex)[k];
                    s.left == left && s.right == right && s.apex == apex
                } by {
                lemma_cospan_block_distinct(left, right, apex);
            }
            crate::theory::listing::lemma_cat_labelled(n, f3, |s: Cosp| s.apex, |i: int| i);
            crate::theory::listing::lemma_cat_all(n, f3, |s: Cosp| s.left == left && s.right == right);
        }
        crate::theory::listing::lemma_cat_labelled(n, f2, |s: Cosp| s.right, |i: int| i);
        crate::theory::listing::lemma_cat_all(n, f2, |s: Cosp| s.left == left);
    }
    crate::theory::listing::lemma_cat_labelled(n, f1, |s: Cosp| s.left, |i: int| i);
}

/// Every cospan with feet and apex of cardinality below `n` is listed once, and
/// nothing else is.
pub proof fn law_all_cospans(n: int)
    ensures
        all_cospans(n).no_duplicates(),
        forall|s: Cosp| #[trigger] all_cospans(n).contains(s) <==> s.wf() && s.left < n && s.right < n && s.apex < n,
{
    lemma_cospans_distinct(n);
    assert forall|s: Cosp| s.wf() && s.left < n && s.right < n && s.apex < n implies #[trigger] all_cospans(n).contains(s) by {
        lemma_all_funs(s.from_left.dom, s.from_left.cod);
        lemma_all_funs(s.from_right.dom, s.from_right.cod);
        let ls = all_funs(s.from_left.dom, s.from_left.cod);
        let rs = all_funs(s.from_right.dom, s.from_right.cod);
        assert(ls.contains(s.from_left) && rs.contains(s.from_right));
        let i = choose|i: int| 0 <= i < ls.len() && ls[i] == s.from_left;
        let j = choose|j: int| 0 <= j < rs.len() && rs[j] == s.from_right;
        let inner = |k: int| Seq::new(rs.len(), |m: int| Cosp { left: s.left, right: s.right, apex: s.apex, from_left: ls[k], from_right: rs[m] });
        assert(inner(i)[j] == s);
        assert(inner(i).contains(s));
        crate::theory::listing::lemma_cat(ls.len() as int, inner);
        assert(cospan_block(s.left, s.right, s.apex).contains(s));
        let f3 = |apex: int| cospan_block(s.left, s.right, apex);
        assert(f3(s.apex).contains(s));
        crate::theory::listing::lemma_cat(n, f3);
        let f2 = |right: int| crate::theory::listing::cat(n, |apex: int| cospan_block(s.left, right, apex));
        assert(f2(s.right).contains(s));
        crate::theory::listing::lemma_cat(n, f2);
        let f1 = |left: int|
            crate::theory::listing::cat(
                n,
                |right: int| crate::theory::listing::cat(n, |apex: int| cospan_block(left, right, apex)),
            );
        assert(f1(s.left).contains(s));
        crate::theory::listing::lemma_cat(n, f1);
    }
    assert forall|s: Cosp| #[trigger] all_cospans(n).contains(s) implies s.wf() && s.left < n && s.right < n && s.apex < n by {
        let f1 = |left: int|
            crate::theory::listing::cat(
                n,
                |right: int| crate::theory::listing::cat(n, |apex: int| cospan_block(left, right, apex)),
            );
        crate::theory::listing::lemma_cat(n, f1);
        let all = all_cospans(n);
        let k = choose|k: int| 0 <= k < all.len() && all[k] == s;
        let left = choose|left: int| 0 <= left < n && (#[trigger] f1(left)).contains(all[k]);
        let f2 = |right: int| crate::theory::listing::cat(n, |apex: int| cospan_block(left, right, apex));
        crate::theory::listing::lemma_cat(n, f2);
        let c1 = f1(left);
        let k1 = choose|k1: int| 0 <= k1 < c1.len() && c1[k1] == s;
        let right = choose|right: int| 0 <= right < n && (#[trigger] f2(right)).contains(c1[k1]);
        let f3 = |apex: int| cospan_block(left, right, apex);
        crate::theory::listing::lemma_cat(n, f3);
        let c2 = f2(right);
        let k2 = choose|k2: int| 0 <= k2 < c2.len() && c2[k2] == s;
        let apex = choose|apex: int| 0 <= apex < n && (#[trigger] f3(apex)).contains(c2[k2]);
        let ls = all_funs(left, apex);
        let rs = all_funs(right, apex);
        lemma_all_funs(left, apex);
        lemma_all_funs(right, apex);
        let inner = |i: int| Seq::new(rs.len(), |m: int| Cosp { left, right, apex, from_left: ls[i], from_right: rs[m] });
        crate::theory::listing::lemma_cat(ls.len() as int, inner);
        let c3 = cospan_block(left, right, apex);
        let k3 = choose|k3: int| 0 <= k3 < c3.len() && c3[k3] == s;
        let i = choose|i: int| 0 <= i < ls.len() && (#[trigger] inner(i)).contains(c3[k3]);
        let row = inner(i);
        let j = choose|j: int| 0 <= j < row.len() && row[j] == s;
        assert(ls[i].wf() && rs[j].wf());
    }
}

fn cospans_at(left: u32, right: u32, apex: u32) -> (r: Vec<Cospan>)
    ensures
        crate::theory::listing::views(r@) == cospan_block(left as int, right as int, apex as int),
{
    let ls = finset::morphisms(left, apex);
    let rs = finset::morphisms(right, apex);
    let ghost fl = all_funs(left as int, apex as int);
    let ghost fr = all_funs(right as int, apex as int);
    let ghost block = |i: int|
        Seq::new(fr.len(), |j: int| Cosp { left: left as int, right: right as int, apex: apex as int, from_left: fl[i], from_right: fr[j] });
    proof {
        assert(funs_of(ls@) =~= fl);
        assert(funs_of(rs@) =~= fr);
    }
    let mut out: Vec<Cospan> = Vec::new();
    let mut i: usize = 0;
    assert(crate::theory::listing::views(out@) =~= crate::theory::listing::cat(0, block));
    while i < ls.len()
        invariant
            i <= ls.len(),
            fl == funs_of(ls@),
            fr == funs_of(rs@),
            block == (|i: int|
                Seq::new(fr.len(), |j: int| Cosp { left: left as int, right: right as int, apex: apex as int, from_left: fl[i], from_right: fr[j] })),
            crate::theory::listing::views(out@) == crate::theory::listing::cat(i as int, block),
        decreases ls.len() - i,
    {
        let ghost done = crate::theory::listing::views(out@);
        let mut j: usize = 0;
        assert(done + block(i as int).take(0) =~= done);
        while j < rs.len()
            invariant
                i < ls.len(),
                j <= rs.len(),
                fl == funs_of(ls@),
                fr == funs_of(rs@),
                block == (|i: int|
                    Seq::new(fr.len(), |j: int| Cosp { left: left as int, right: right as int, apex: apex as int, from_left: fl[i], from_right: fr[j] })),
                crate::theory::listing::views(out@) == done + block(i as int).take(j as int),
            decreases rs.len() - j,
        {
            let x = Cospan { left, right, apex, from_left: ls[i].clone(), from_right: rs[j].clone() };
            proof {
                crate::theory::listing::lemma_views_push(out@, x);
                assert(x@ =~= block(i as int)[j as int]);
                assert(done + block(i as int).take(j + 1) =~= (done + block(i as int).take(j as int)).push(x@));
            }
            out.push(x);
            j = j + 1;
        }
        assert(block(i as int).take(j as int) =~= block(i as int));
        i = i + 1;
    }
    out
}

/// Cospans with feet and apex of cardinality at most `max`.
pub fn cospans_up_to(max: u32) -> (r: Vec<Cospan>)
    ensures
        crate::theory::listing::views(r@) == all_cospans(max + 1),
{
    let cards = finset::objects_up_to(max);
    let ghost n = max + 1;
    let ghost f1 = |left: int|
        crate::theory::listing::cat(
            n,
            |right: int| crate::theory::listing::cat(n, |apex: int| cospan_block(left, right, apex)),
        );
    let mut out: Vec<Cospan> = Vec::new();
    let mut i: usize = 0;
    assert(crate::theory::listing::views(out@) =~= crate::theory::listing::cat(0, f1));
    while i < cards.len()
        invariant
            n == max + 1,
            cards@ == Seq::new(max as nat + 1, |k: int| k as u32),
            i <= cards.len(),
            f1 == (|left: int|
                crate::theory::listing::cat(
                    n,
                    |right: int| crate::theory::listing::cat(n, |apex: int| cospan_block(left, right, apex)),
                )),
            crate::theory::listing::views(out@) == crate::theory::listing::cat(i as int, f1),
        decreases cards.len() - i,
    {
        let left: u32 = cards[i];
        let ghost done1 = crate::theory::listing::views(out@);
        let ghost f2 = |right: int| crate::theory::listing::cat(n, |apex: int| cospan_block(left as int, right, apex));
        let mut j: usize = 0;
        assert(done1 + crate::theory::listing::cat(0, f2) =~= done1);
        while j < cards.len()
            invariant
                n == max + 1,
                cards@ == Seq::new(max as nat + 1, |k: int| k as u32),
                j <= cards.len(),
                f2 == (|right: int| crate::theory::listing::cat(n, |apex: int| cospan_block(left as int, right, apex))),
                crate::theory::listing::views(out@) == done1 + crate::theory::listing::cat(j as int, f2),
            decreases cards.len() - j,
        {
            let right: u32 = cards[j];
            let ghost done2 = crate::theory::listing::views(out@);
            let ghost f3 = |apex: int| cospan_block(left as int, right as int, apex);
            let mut k: usize = 0;
            assert(done2 + crate::theory::listing::cat(0, f3) =~= done2);
            while k < cards.len()
                invariant
                    n == max + 1,
                    cards@ == Seq::new(max as nat + 1, |k: int| k as u32),
                    k <= cards.len(),
                    f3 == (|apex: int| cospan_block(left as int, right as int, apex)),
                    crate::theory::listing::views(out@) == done2 + crate::theory::listing::cat(k as int, f3),
                decreases cards.len() - k,
            {
                let apex: u32 = cards[k];
                let mut block = cospans_at(left, right, apex);
                proof {
                    crate::theory::listing::lemma_views_add(out@, block@);
                    assert(done2 + crate::theory::listing::cat(k + 1, f3) =~= (done2 + crate::theory::listing::cat(k as int, f3)) + f3(k as int));
                }
                out.append(&mut block);
                k = k + 1;
            }
            proof {
                assert(f2(j as int) == crate::theory::listing::cat(n, f3));
                assert(done1 + crate::theory::listing::cat(j + 1, f2) =~= (done1 + crate::theory::listing::cat(j as int, f2)) + f2(j as int));
            }
            j = j + 1;
        }
        proof {
            assert(f1(i as int) == crate::theory::listing::cat(n, f2));
        }
        i = i + 1;
    }
    out
}

} // verus!
