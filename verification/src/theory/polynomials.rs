//! Polynomials and their maps.
use vstd::prelude::*;
use crate::theory::fun::Fun;
use crate::theory::matrices::Mat;

verus! {

/// A sum of representables: for each position, how many coefficients and how
/// many directions it has.
#[verifier::ext_equal]
pub struct Pol {
    pub positions: Seq<(int, int)>,
}

/// Where a coefficient goes, and how the directions come back.
#[verifier::ext_equal]
pub struct Ch {
    pub target: int,
    pub dirs: Fun,
}

#[verifier::ext_equal]
pub struct PMap {
    pub dom: Pol,
    pub cod: Pol,
    pub on: Seq<Seq<Ch>>,
}

impl Pol {
    /// No count is negative.
    pub open spec fn wf(self) -> bool {
        forall|k: int| 0 <= k < self.positions.len() ==> (#[trigger] self.positions[k]).0 >= 0 && self.positions[k].1 >= 0
    }
}

impl PMap {
    /// A choice for a position with `t` directions.
    pub open spec fn fits(cod: Pol, t: int, c: Ch) -> bool {
        &&& 0 <= c.target < cod.positions.len()
        &&& c.dirs.hom(cod.positions[c.target].1, t)
    }

    /// One choice for each coefficient of each position.
    pub open spec fn wf(self) -> bool {
        &&& self.dom.wf()
        &&& self.cod.wf()
        &&& self.on.len() == self.dom.positions.len()
        &&& forall|k: int| 0 <= k < self.on.len() ==> (#[trigger] self.on[k]).len() == self.dom.positions[k].0
        &&& forall|k: int, i: int|
            0 <= k < self.on.len() && 0 <= i < self.on[k].len() ==> PMap::fits(
                self.cod,
                self.dom.positions[k].1,
                #[trigger] self.on[k][i],
            )
    }

    /// No coefficient goes to a position that has none.
    pub open spec fn lands(self) -> bool {
        forall|k: int, i: int|
            0 <= k < self.on.len() && 0 <= i < self.on[k].len() ==> self.cod.positions[(#[trigger] self.on[k][i]).target].0 > 0
    }

    /// All coefficients of one position go the same way.
    pub open spec fn uniform(self) -> bool {
        forall|k: int, i: int|
            0 <= k < self.on.len() && 0 <= i < self.on[k].len() ==> #[trigger] self.on[k][i] == self.on[k][0]
    }

    pub open spec fn id(p: Pol) -> PMap {
        PMap {
            dom: p,
            cod: p,
            on: Seq::new(
                p.positions.len(),
                |k: int| Seq::new(p.positions[k].0 as nat, |i: int| Ch { target: k, dirs: Fun::id(p.positions[k].1) }),
            ),
        }
    }

    /// The choice that follows `c`: the first one at its target, with the
    /// directions composed.
    pub open spec fn follow(self, c: Ch) -> Ch {
        let next = self.on[c.target][0];
        Ch { target: next.target, dirs: c.dirs.o(next.dirs) }
    }

    pub open spec fn o(self, inner: PMap) -> PMap {
        PMap {
            dom: inner.dom,
            cod: self.cod,
            on: Seq::new(
                inner.on.len(),
                |k: int| Seq::new(inner.on[k].len(), |i: int| self.follow(inner.on[k][i])),
            ),
        }
    }

    /// Entry `(n, k)` is 1 when source position `k` is sent to target position `n`.
    pub open spec fn residual(self) -> Mat {
        Mat::from(
            self.cod.positions.len() as int,
            self.dom.positions.len() as int,
            |n: int, k: int|
                if self.on[k].len() > 0 && self.on[k][0].target == n {
                    1int
                } else {
                    0
                },
        )
    }
}

pub proof fn lemma_identity(p: Pol)
    requires
        p.wf(),
    ensures
        PMap::id(p).wf(),
        PMap::id(p).lands(),
        PMap::id(p).uniform(),
{
}

/// Composites of maps are maps.
pub proof fn lemma_compose(g: PMap, f: PMap)
    requires
        f.wf(),
        g.wf(),
        f.cod == g.dom,
        f.lands(),
    ensures
        g.o(f).wf(),
        g.lands() ==> g.o(f).lands(),
        forall|k: int, i: int|
            0 <= k < f.on.len() && 0 <= i < f.on[k].len() ==> #[trigger] g.o(f).on[k][i] == g.follow(f.on[k][i]),
{
    let gf = g.o(f);
    assert forall|k: int, i: int| 0 <= k < gf.on.len() && 0 <= i < gf.on[k].len() implies {
        &&& PMap::fits(gf.cod, gf.dom.positions[k].1, #[trigger] gf.on[k][i])
        &&& g.lands() ==> gf.cod.positions[gf.on[k][i].target].0 > 0
    } by {
        let c = f.on[k][i];
        assert(PMap::fits(f.cod, f.dom.positions[k].1, c));
        assert(f.cod.positions[c.target].0 > 0);
        assert(g.on[c.target].len() == g.dom.positions[c.target].0);
        let next = g.on[c.target][0];
        assert(PMap::fits(g.cod, g.dom.positions[c.target].1, next));
        assert(gf.on[k][i] == g.follow(c));
        let d = c.dirs.o(next.dirs);
        assert forall|v: int| 0 <= v < d.dom implies 0 <= #[trigger] d.map[v] < d.cod by {
            assert(d.map[v] == c.dirs.map[next.dirs.map[v]]);
        }
    }
}

/// Composition is associative, and identities are neutral: on the left for
/// every map, on the right for each map that sends all coefficients of a
/// position the same way. That covers every map out of a polynomial whose
/// positions have at most one coefficient.
pub proof fn law_polynomial_category(h: PMap, g: PMap, f: PMap)
    requires
        f.wf(),
        g.wf(),
        h.wf(),
        f.cod == g.dom,
        g.cod == h.dom,
        f.lands(),
        g.lands(),
    ensures
        PMap::id(f.cod).o(f) == f,
        f.uniform() ==> f.o(PMap::id(f.dom)) == f,
        (forall|k: int| 0 <= k < f.dom.positions.len() ==> (#[trigger] f.dom.positions[k]).0 <= 1) ==> f.uniform(),
        h.o(g.o(f)) == h.o(g).o(f),
{
    lemma_identity(f.cod);
    lemma_identity(f.dom);
    lemma_compose(PMap::id(f.cod), f);
    lemma_compose(PMap::id(f.dom), PMap::id(f.dom));
    lemma_compose(f, PMap::id(f.dom));
    let l = PMap::id(f.cod).o(f);
    assert forall|k: int, i: int| 0 <= k < f.on.len() && 0 <= i < f.on[k].len() implies #[trigger] l.on[k][i] == f.on[k][i] by {
        let c = f.on[k][i];
        assert(PMap::fits(f.cod, f.dom.positions[k].1, c));
        assert(f.cod.positions[c.target].0 > 0);
        crate::theory::fun::law_identity(c.dirs);
        assert(l.on[k][i] == PMap::id(f.cod).follow(c));
    }
    lemma_ext(l, f);
    if f.uniform() {
        let r = f.o(PMap::id(f.dom));
        assert forall|k: int, i: int| 0 <= k < f.on.len() && 0 <= i < f.on[k].len() implies #[trigger] r.on[k][i] == f.on[k][i] by {
            let c = f.on[k][0];
            assert(f.on[k][i] == c);
            assert(PMap::fits(f.cod, f.dom.positions[k].1, f.on[k][i]));
            crate::theory::fun::law_identity(c.dirs);
            assert(f.on[k].len() == f.dom.positions[k].0);
            assert(r.on[k][i] == f.follow(PMap::id(f.dom).on[k][i]));
        }
        lemma_ext(r, f);
    }
    if forall|k: int| 0 <= k < f.dom.positions.len() ==> (#[trigger] f.dom.positions[k]).0 <= 1 {
        assert forall|k: int, i: int| 0 <= k < f.on.len() && 0 <= i < f.on[k].len() implies #[trigger] f.on[k][i] == f.on[k][0] by {
            assert(f.dom.positions[k].0 <= 1);
        }
    }
    lemma_compose(g, f);
    lemma_compose(h, g);
    lemma_compose(h, g.o(f));
    lemma_compose(h.o(g), f);
    let a = h.o(g.o(f));
    let b = h.o(g).o(f);
    assert forall|k: int, i: int| 0 <= k < a.on.len() && 0 <= i < a.on[k].len() implies #[trigger] a.on[k][i] == b.on[k][i] by {
        let c = f.on[k][i];
        assert(PMap::fits(f.cod, f.dom.positions[k].1, c));
        assert(f.cod.positions[c.target].0 > 0);
        assert(g.on[c.target].len() == g.dom.positions[c.target].0);
        let next = g.on[c.target][0];
        assert(PMap::fits(g.cod, g.dom.positions[c.target].1, next));
        assert(g.cod.positions[next.target].0 > 0);
        assert(h.on[next.target].len() == h.dom.positions[next.target].0);
        let last = h.on[next.target][0];
        assert(PMap::fits(h.cod, h.dom.positions[next.target].1, last));
        crate::theory::fun::law_associative(c.dirs, next.dirs, last.dirs);
        assert(a.on[k][i] == h.follow(g.follow(c)));
        assert(h.o(g).on[c.target][0] == h.follow(next));
        assert(b.on[k][i] == h.o(g).follow(c));
    }
    lemma_ext(a, b);
}

/// Maps with the same choices are equal.
proof fn lemma_ext(a: PMap, b: PMap)
    requires
        a.dom == b.dom,
        a.cod == b.cod,
        a.on.len() == b.on.len(),
        forall|k: int| 0 <= k < a.on.len() ==> (#[trigger] a.on[k]).len() == b.on[k].len(),
        forall|k: int, i: int| 0 <= k < a.on.len() && 0 <= i < a.on[k].len() ==> #[trigger] a.on[k][i] == b.on[k][i],
    ensures
        a == b,
{
    assert forall|k: int| 0 <= k < a.on.len() implies a.on[k] == b.on[k] by {
        assert(a.on[k] =~= b.on[k]);
    }
    assert(a.on =~= b.on);
}

/// The residual of a composite is the product of the residuals.
pub proof fn law_residuals_multiply(g: PMap, f: PMap)
    requires
        f.wf(),
        g.wf(),
        f.cod == g.dom,
        f.lands(),
    ensures
        Mat::times(g.residual(), f.residual()) == g.o(f).residual(),
{
    lemma_compose(g, f);
    let gf = g.o(f);
    let rg = g.residual();
    let rf = f.residual();
    let rgf = gf.residual();
    let prod = Mat::times(rg, rf);
    let rows = g.cod.positions.len() as int;
    let mid = g.dom.positions.len() as int;
    let cols = f.dom.positions.len() as int;
    crate::theory::matrices::lemma_from(
        rows,
        mid,
        |n: int, k: int| if g.on[k].len() > 0 && g.on[k][0].target == n { 1int } else { 0 },
    );
    crate::theory::matrices::lemma_from(
        mid,
        cols,
        |n: int, k: int| if f.on[k].len() > 0 && f.on[k][0].target == n { 1int } else { 0 },
    );
    crate::theory::matrices::lemma_from(
        rows,
        cols,
        |n: int, k: int| if gf.on[k].len() > 0 && gf.on[k][0].target == n { 1int } else { 0 },
    );
    crate::theory::matrices::lemma_from(rows, cols, |i: int, k: int| Mat::dot(rg, rf, i, k));
    assert forall|i: int, k: int| 0 <= i < rows && 0 <= k < cols implies #[trigger] prod.g(i, k) == rgf.g(i, k) by {
        let term = |j: int| rg.g(i, j) * rf.g(j, k);
        if f.on[k].len() > 0 {
            let c = f.on[k][0];
            assert(PMap::fits(f.cod, f.dom.positions[k].1, c));
            assert(f.cod.positions[c.target].0 > 0);
            assert(g.on[c.target].len() == g.dom.positions[c.target].0);
            assert forall|j: int| 0 <= j < mid && j != c.target implies #[trigger] term(j) == 0 by {
                assert(rf.g(j, k) == 0);
                assert(rg.g(i, j) * 0 == 0) by (nonlinear_arith);
            }
            crate::theory::sums::lemma_sum_one(mid, c.target, term);
            assert(rf.g(c.target, k) == 1);
            assert(gf.on[k][0] == g.follow(c));
            assert(term(c.target) == rg.g(i, c.target));
        } else {
            assert forall|j: int| 0 <= j < mid implies #[trigger] term(j) == 0 by {
                assert(rf.g(j, k) == 0);
                assert(rg.g(i, j) * 0 == 0) by (nonlinear_arith);
            }
            crate::theory::sums::lemma_sum_ext(mid, term, |j: int| 0int);
            crate::theory::sums::lemma_sum_zero(mid);
        }
        crate::theory::sums::lemma_sum_ext(mid, term, |j: int| rg.g(i, j) * rf.g(j, k));
    }
    crate::theory::matrices::lemma_mat_ext(prod, rgf);
}

// ----- listings -----

/// Each list of `ls`, extended by each of `opts` in turn.
pub open spec fn extended<T>(ls: Seq<Seq<T>>, opts: Seq<T>) -> Seq<Seq<T>> {
    crate::theory::listing::cat(ls.len() as int, |k: int| Seq::new(opts.len(), |v: int| ls[k].push(opts[v])))
}

pub proof fn lemma_extended<T>(ls: Seq<Seq<T>>, opts: Seq<T>)
    ensures
        forall|s: Seq<T>| #[trigger] extended(ls, opts).contains(s) <==> s.len() > 0 && ls.contains(s.drop_last()) && opts.contains(
            s.last(),
        ),
{
    let f = |k: int| Seq::new(opts.len(), |v: int| ls[k].push(opts[v]));
    let all = extended(ls, opts);
    crate::theory::listing::lemma_cat(ls.len() as int, f);
    assert forall|s: Seq<T>| #[trigger] all.contains(s) implies s.len() > 0 && ls.contains(s.drop_last()) && opts.contains(
        s.last(),
    ) by {
        let j = choose|j: int| 0 <= j < all.len() && all[j] == s;
        let k = choose|k: int| 0 <= k < ls.len() && (#[trigger] f(k)).contains(all[j]);
        let b = f(k);
        let v = choose|v: int| 0 <= v < b.len() && b[v] == s;
        assert(b[v] == ls[k].push(opts[v]));
        assert(s.drop_last() =~= ls[k]);
        assert(s.last() == opts[v]);
    }
    assert forall|s: Seq<T>| s.len() > 0 && ls.contains(s.drop_last()) && opts.contains(s.last()) implies #[trigger] all.contains(
        s,
    ) by {
        let k = choose|k: int| 0 <= k < ls.len() && ls[k] == s.drop_last();
        let v = choose|v: int| 0 <= v < opts.len() && opts[v] == s.last();
        assert(s =~= ls[k].push(opts[v]));
        let b = f(k);
        assert(b[v] == s);
        assert(f(k).contains(s));
    }
}

proof fn lemma_extended_distinct<T>(ls: Seq<Seq<T>>, opts: Seq<T>)
    requires
        ls.no_duplicates(),
        opts.no_duplicates(),
    ensures
        extended(ls, opts).no_duplicates(),
{
    let f = |k: int| Seq::new(opts.len(), |v: int| ls[k].push(opts[v]));
    assert forall|k: int| 0 <= k < ls.len() implies (#[trigger] f(k)).no_duplicates() by {
        let b = f(k);
        assert forall|i: int, j: int| 0 <= i < b.len() && 0 <= j < b.len() && i != j implies b[i] != b[j] by {
            assert(b[i].last() == opts[i] && b[j].last() == opts[j]);
        }
    }
    let tag = |s: Seq<T>| s.drop_last();
    assert forall|k: int, v: int| 0 <= k < ls.len() && 0 <= v < f(k).len() implies tag(#[trigger] f(k)[v]) == ls[k] by {
        assert(f(k)[v].drop_last() =~= ls[k]);
    }
    crate::theory::listing::lemma_cat_labelled(ls.len() as int, f, tag, |k: int| ls[k]);
}

/// The choices that go to position `n`, one for each direction map. A
/// position without coefficients gets none.
pub open spec fn choices_to(cod: Pol, t: int, n: int) -> Seq<Ch> {
    let (a, b) = cod.positions[n];
    if a == 0 {
        Seq::empty()
    } else {
        let fs = crate::span::all_funs(b, t);
        Seq::new(fs.len(), |k: int| Ch { target: n, dirs: fs[k] })
    }
}

/// The choices for one coefficient of a position with `t` directions.
pub open spec fn options(cod: Pol, t: int) -> Seq<Ch> {
    crate::theory::listing::cat(cod.positions.len() as int, |n: int| choices_to(cod, t, n))
}

/// The choices for `s` coefficients.
pub open spec fn choice_lists(cod: Pol, s: nat, t: int) -> Seq<Seq<Ch>>
    decreases s,
{
    if s == 0 {
        seq![Seq::<Ch>::empty()]
    } else {
        extended(choice_lists(cod, (s - 1) as nat, t), options(cod, t))
    }
}

/// The choices for the first `k` positions.
pub open spec fn on_lists(dom: Pol, cod: Pol, k: nat) -> Seq<Seq<Seq<Ch>>>
    decreases k,
{
    if k == 0 {
        seq![Seq::<Seq<Ch>>::empty()]
    } else {
        extended(
            on_lists(dom, cod, (k - 1) as nat),
            choice_lists(cod, dom.positions[k - 1].0 as nat, dom.positions[k - 1].1),
        )
    }
}

/// The maps `dom → cod` that land on coefficients.
pub open spec fn all_maps(dom: Pol, cod: Pol) -> Seq<PMap> {
    let ons = on_lists(dom, cod, dom.positions.len());
    Seq::new(ons.len(), |k: int| PMap { dom, cod, on: ons[k] })
}

/// A choice that fits and lands.
pub open spec fn is_option(cod: Pol, t: int, c: Ch) -> bool {
    PMap::fits(cod, t, c) && cod.positions[c.target].0 > 0
}

pub proof fn lemma_options(cod: Pol, t: int)
    requires
        cod.wf(),
        t >= 0,
    ensures
        options(cod, t).no_duplicates(),
        forall|c: Ch| #[trigger] options(cod, t).contains(c) <==> is_option(cod, t, c),
{
    let f = |n: int| choices_to(cod, t, n);
    assert forall|n: int| 0 <= n < cod.positions.len() implies (#[trigger] f(n)).no_duplicates() by {
        crate::span::lemma_all_funs(cod.positions[n].1, t);
        let (b, fs) = (f(n), crate::span::all_funs(cod.positions[n].1, t));
        assert forall|i: int, j: int| 0 <= i < b.len() && 0 <= j < b.len() && i != j implies b[i] != b[j] by {
            assert(b[i].dirs == fs[i] && b[j].dirs == fs[j]);
        }
    }
    crate::theory::listing::lemma_cat_labelled(cod.positions.len() as int, f, |c: Ch| c.target, |n: int| n);
    let all = options(cod, t);
    crate::theory::listing::lemma_cat(cod.positions.len() as int, f);
    assert forall|c: Ch| #[trigger] all.contains(c) implies is_option(cod, t, c) by {
        let j = choose|j: int| 0 <= j < all.len() && all[j] == c;
        let n = choose|n: int| 0 <= n < cod.positions.len() && (#[trigger] f(n)).contains(all[j]);
        let b = choices_to(cod, t, n);
        assert(b.contains(c));
        let k = choose|k: int| 0 <= k < b.len() && b[k] == c;
        crate::span::lemma_all_funs(cod.positions[n].1, t);
        assert(crate::span::all_funs(cod.positions[n].1, t)[k].hom(cod.positions[n].1, t));
    }
    assert forall|c: Ch| is_option(cod, t, c) implies #[trigger] all.contains(c) by {
        let n = c.target;
        let fs = crate::span::all_funs(cod.positions[n].1, t);
        crate::span::lemma_all_funs(cod.positions[n].1, t);
        assert(fs.contains(c.dirs));
        let k = choose|k: int| 0 <= k < fs.len() && fs[k] == c.dirs;
        assert(choices_to(cod, t, n)[k] == c);
        assert(f(n).contains(c));
    }
}

/// A list of `s` choices that fit and land.
pub open spec fn is_choice_list(cod: Pol, s: int, t: int, cs: Seq<Ch>) -> bool {
    cs.len() == s && forall|i: int| 0 <= i < cs.len() ==> is_option(cod, t, #[trigger] cs[i])
}

pub proof fn lemma_choice_lists(cod: Pol, s: nat, t: int)
    requires
        cod.wf(),
        t >= 0,
    ensures
        choice_lists(cod, s, t).no_duplicates(),
        forall|cs: Seq<Ch>| #[trigger] choice_lists(cod, s, t).contains(cs) <==> is_choice_list(cod, s as int, t, cs),
    decreases s,
{
    if s == 0 {
        let all = choice_lists(cod, s, t);
        assert(all == seq![Seq::<Ch>::empty()]);
        assert forall|cs: Seq<Ch>| #[trigger] all.contains(cs) <==> is_choice_list(cod, s as int, t, cs) by {
            if cs.len() == 0 {
                assert(cs =~= Seq::<Ch>::empty());
                assert(all[0] == cs);
            }
        }
    } else {
        let prev = choice_lists(cod, (s - 1) as nat, t);
        lemma_choice_lists(cod, (s - 1) as nat, t);
        lemma_options(cod, t);
        lemma_extended(prev, options(cod, t));
        lemma_extended_distinct(prev, options(cod, t));
        assert forall|cs: Seq<Ch>| #[trigger] choice_lists(cod, s, t).contains(cs) <==> is_choice_list(cod, s as int, t, cs) by {
            assert(choice_lists(cod, s, t) == extended(prev, options(cod, t)));
            if extended(prev, options(cod, t)).contains(cs) {
                assert(prev.contains(cs.drop_last()));
                assert(options(cod, t).contains(cs.last()));
                assert forall|i: int| 0 <= i < cs.len() implies is_option(cod, t, #[trigger] cs[i]) by {
                    if i < cs.len() - 1 {
                        assert(cs.drop_last()[i] == cs[i]);
                    }
                }
            }
            if is_choice_list(cod, s as int, t, cs) {
                let d = cs.drop_last();
                assert forall|i: int| 0 <= i < d.len() implies is_option(cod, t, #[trigger] d[i]) by {
                    assert(d[i] == cs[i]);
                }
                assert(is_option(cod, t, cs[cs.len() - 1]));
                assert(prev.contains(d));
                assert(options(cod, t).contains(cs.last()));
            }
        }
    }
}

/// Choices for the first `k` positions that fit and land.
pub open spec fn is_on_list(dom: Pol, cod: Pol, k: int, on: Seq<Seq<Ch>>) -> bool {
    on.len() == k && forall|j: int|
        0 <= j < on.len() ==> is_choice_list(cod, dom.positions[j].0, dom.positions[j].1, #[trigger] on[j])
}

pub proof fn lemma_on_lists(dom: Pol, cod: Pol, k: nat)
    requires
        dom.wf(),
        cod.wf(),
        k <= dom.positions.len(),
    ensures
        on_lists(dom, cod, k).no_duplicates(),
        forall|on: Seq<Seq<Ch>>| #[trigger] on_lists(dom, cod, k).contains(on) <==> is_on_list(dom, cod, k as int, on),
    decreases k,
{
    if k == 0 {
        let all = on_lists(dom, cod, k);
        assert(all == seq![Seq::<Seq<Ch>>::empty()]);
        assert forall|on: Seq<Seq<Ch>>| #[trigger] all.contains(on) <==> is_on_list(dom, cod, k as int, on) by {
            if on.len() == 0 {
                assert(on =~= Seq::<Seq<Ch>>::empty());
                assert(all[0] == on);
            }
        }
    } else {
        let (s, t) = dom.positions[k - 1];
        let prev = on_lists(dom, cod, (k - 1) as nat);
        let opts = choice_lists(cod, s as nat, t);
        lemma_on_lists(dom, cod, (k - 1) as nat);
        lemma_choice_lists(cod, s as nat, t);
        lemma_extended(prev, opts);
        lemma_extended_distinct(prev, opts);
        assert forall|on: Seq<Seq<Ch>>| #[trigger] on_lists(dom, cod, k).contains(on) <==> is_on_list(dom, cod, k as int, on) by {
            assert(on_lists(dom, cod, k) == extended(prev, opts));
            if extended(prev, opts).contains(on) {
                assert(prev.contains(on.drop_last()));
                assert(opts.contains(on.last()));
                assert forall|j: int| 0 <= j < on.len() implies is_choice_list(
                    cod,
                    dom.positions[j].0,
                    dom.positions[j].1,
                    #[trigger] on[j],
                ) by {
                    if j < on.len() - 1 {
                        assert(on.drop_last()[j] == on[j]);
                    }
                }
            }
            if is_on_list(dom, cod, k as int, on) {
                let d = on.drop_last();
                assert forall|j: int| 0 <= j < d.len() implies is_choice_list(
                    cod,
                    dom.positions[j].0,
                    dom.positions[j].1,
                    #[trigger] d[j],
                ) by {
                    assert(d[j] == on[j]);
                }
                assert(is_choice_list(cod, s, t, on[k - 1]));
                assert(prev.contains(d));
                assert(opts.contains(on.last()));
            }
        }
    }
}

/// The listing holds exactly the maps that land on coefficients, each once.
pub proof fn law_all_maps(dom: Pol, cod: Pol)
    requires
        dom.wf(),
        cod.wf(),
    ensures
        all_maps(dom, cod).no_duplicates(),
        forall|m: PMap| #[trigger] all_maps(dom, cod).contains(m) <==> m.wf() && m.lands() && m.dom == dom && m.cod == cod,
{
    let n = dom.positions.len();
    let ons = on_lists(dom, cod, n);
    let all = all_maps(dom, cod);
    lemma_on_lists(dom, cod, n);
    assert forall|i: int, j: int| 0 <= i < all.len() && 0 <= j < all.len() && i != j implies all[i] != all[j] by {
        assert(all[i].on == ons[i] && all[j].on == ons[j]);
    }
    assert forall|m: PMap| #[trigger] all.contains(m) implies m.wf() && m.lands() && m.dom == dom && m.cod == cod by {
        let j = choose|j: int| 0 <= j < all.len() && all[j] == m;
        assert(ons.contains(ons[j]));
        assert(is_on_list(dom, cod, n as int, m.on));
        assert forall|k: int, i: int| 0 <= k < m.on.len() && 0 <= i < m.on[k].len() implies is_option(
            cod,
            dom.positions[k].1,
            #[trigger] m.on[k][i],
        ) by {
            assert(is_choice_list(cod, dom.positions[k].0, dom.positions[k].1, m.on[k]));
        }
        assert forall|k: int| 0 <= k < m.on.len() implies (#[trigger] m.on[k]).len() == m.dom.positions[k].0 by {
            assert(is_choice_list(cod, dom.positions[k].0, dom.positions[k].1, m.on[k]));
        }
    }
    assert forall|m: PMap| m.wf() && m.lands() && m.dom == dom && m.cod == cod implies #[trigger] all.contains(m) by {
        assert forall|k: int| 0 <= k < m.on.len() implies is_choice_list(
            cod,
            dom.positions[k].0,
            dom.positions[k].1,
            #[trigger] m.on[k],
        ) by {
            assert forall|i: int| 0 <= i < m.on[k].len() implies is_option(cod, dom.positions[k].1, #[trigger] m.on[k][i]) by {
            }
        }
        assert(is_on_list(dom, cod, n as int, m.on));
        assert(ons.contains(m.on));
        let j = choose|j: int| 0 <= j < ons.len() && ons[j] == m.on;
        assert(all[j] == m);
    }
}

// ----- all polynomials -----

/// The pair with number `v` among those with both entries below `c`.
pub open spec fn nth_pair(c: int, v: int) -> (int, int) {
    (v / c, v % c)
}

pub open spec fn prefixed(p: (int, int), ps: Seq<Seq<(int, int)>>) -> Seq<Seq<(int, int)>> {
    Seq::new(ps.len(), |k: int| seq![p] + ps[k])
}

/// The position lists of length at most `m` with entries below `c`: first the
/// empty one, then those that begin with each pair in turn.
pub open spec fn position_lists(m: nat, c: int) -> Seq<Seq<(int, int)>>
    decreases m,
{
    if m == 0 {
        seq![Seq::<(int, int)>::empty()]
    } else {
        let rest = position_lists((m - 1) as nat, c);
        seq![Seq::<(int, int)>::empty()] + crate::theory::listing::cat(c * c, |v: int| prefixed(nth_pair(c, v), rest))
    }
}

/// `a` comes before `b` in dictionary order.
pub open spec fn list_less(a: Seq<(int, int)>, b: Seq<(int, int)>) -> bool {
    exists|p: int| #[trigger] list_less_at(a, b, p)
}

pub open spec fn pair_before(x: (int, int), y: (int, int)) -> bool {
    x.0 < y.0 || (x.0 == y.0 && x.1 < y.1)
}

pub open spec fn list_less_at(a: Seq<(int, int)>, b: Seq<(int, int)>, p: int) -> bool {
    &&& 0 <= p <= a.len()
    &&& p < b.len()
    &&& forall|q: int| 0 <= q < p ==> a[q] == b[q]
    &&& p == a.len() || pair_before(a[p], b[p])
}

pub open spec fn is_position_list(m: int, c: int, s: Seq<(int, int)>) -> bool {
    s.len() <= m && forall|k: int| 0 <= k < s.len() ==> 0 <= (#[trigger] s[k]).0 < c && 0 <= s[k].1 < c
}

pub open spec fn strictly_listed(all: Seq<Seq<(int, int)>>) -> bool {
    forall|i: int, j: int| 0 <= i < j < all.len() ==> list_less(#[trigger] all[i], #[trigger] all[j])
}

proof fn lemma_prefixed(x: (int, int), y: (int, int), a: Seq<(int, int)>, b: Seq<(int, int)>)
    ensures
        pair_before(x, y) ==> list_less(seq![x] + a, seq![y] + b),
        list_less(a, b) ==> list_less(seq![x] + a, seq![x] + b),
        list_less(Seq::<(int, int)>::empty(), seq![x] + a),
{
    assert(list_less_at(Seq::<(int, int)>::empty(), seq![x] + a, 0));
    if pair_before(x, y) {
        assert(list_less_at(seq![x] + a, seq![y] + b, 0));
    }
    if list_less(a, b) {
        let p = choose|p: int| #[trigger] list_less_at(a, b, p);
        let xa = seq![x] + a;
        let xb = seq![x] + b;
        assert forall|q: int| 0 <= q < p + 1 implies xa[q] == xb[q] by {
            if q > 0 {
                assert(xa[q] == a[q - 1] && xb[q] == b[q - 1]);
            }
        }
        assert(list_less_at(xa, xb, p + 1));
    }
}

/// The first `n` blocks of lists are strictly listed, and hold the lists that
/// begin with one of the first `n` pairs.
proof fn lemma_blocks(rest: Seq<Seq<(int, int)>>, m: int, c: int, n: int)
    requires
        0 <= n <= c * c,
        c >= 0,
        strictly_listed(rest),
        forall|s: Seq<(int, int)>| #[trigger] rest.contains(s) <==> is_position_list(m, c, s),
    ensures
        ({
            let all = crate::theory::listing::cat(n, |v: int| prefixed(nth_pair(c, v), rest));
            &&& strictly_listed(all)
            &&& forall|s: Seq<(int, int)>| #[trigger]
                all.contains(s) <==> is_position_list(m + 1, c, s) && s.len() > 0 && s[0].0 * c + s[0].1 < n
        }),
    decreases n,
{
    let f = |v: int| prefixed(nth_pair(c, v), rest);
    let all = crate::theory::listing::cat(n, f);
    if n == 0 {
        assert(all =~= Seq::<Seq<(int, int)>>::empty());
        assert forall|s: Seq<(int, int)>| is_position_list(m + 1, c, s) && s.len() > 0 && s[0].0 * c + s[0].1 < n
            implies false by {
            crate::theory::limits::lemma_pair_index(c, c, s[0].0, s[0].1);
        }
    } else {
        lemma_blocks(rest, m, c, n - 1);
        let prev = crate::theory::listing::cat(n - 1, f);
        let x = nth_pair(c, n - 1);
        let last = prefixed(x, rest);
        crate::theory::limits::lemma_unpair(c, c, n - 1);
        assert(all == prev + last);
        assert forall|i: int, j: int| 0 <= i < j < all.len() implies list_less(#[trigger] all[i], #[trigger] all[j]) by {
            if j < prev.len() {
                assert(all[i] == prev[i] && all[j] == prev[j]);
            } else if i >= prev.len() {
                let a = i - prev.len();
                let b = j - prev.len();
                assert(all[i] == last[a] && all[j] == last[b]);
                assert(list_less(rest[a], rest[b]));
                lemma_prefixed(x, x, rest[a], rest[b]);
            } else {
                let s = prev[i];
                let b = j - prev.len();
                assert(all[i] == s && all[j] == last[b]);
                assert(prev.contains(s));
                assert(s[0].0 * c + s[0].1 < n - 1);
                assert(pair_before(s[0], x)) by {
                    let (p, q) = s[0];
                    assert(x.0 * c + x.1 == n - 1);
                    if !(p < x.0 || (p == x.0 && q < x.1)) {
                        if p == x.0 {
                        } else {
                            assert(p * c >= x.0 * c + c) by (nonlinear_arith) requires p >= x.0 + 1, c >= 0;
                        }
                    }
                }
                let tail = s.subrange(1, s.len() as int);
                assert(s =~= seq![s[0]] + tail);
                lemma_prefixed(s[0], x, tail, rest[b]);
            }
        }
        assert forall|s: Seq<(int, int)>| #[trigger] all.contains(s) <==> is_position_list(m + 1, c, s) && s.len() > 0 && s[0].0
            * c + s[0].1 < n by {
            if all.contains(s) {
                let j = choose|j: int| 0 <= j < all.len() && all[j] == s;
                if j < prev.len() {
                    assert(prev[j] == s);
                    assert(prev.contains(s));
                } else {
                    let b = j - prev.len();
                    assert(s == last[b]);
                    assert(rest.contains(rest[b]));
                    assert forall|k: int| 0 <= k < s.len() implies 0 <= (#[trigger] s[k]).0 < c && 0 <= s[k].1 < c by {
                        if k > 0 {
                            assert(s[k] == rest[b][k - 1]);
                        }
                    }
                }
            }
            if is_position_list(m + 1, c, s) && s.len() > 0 && s[0].0 * c + s[0].1 < n {
                if s[0].0 * c + s[0].1 < n - 1 {
                    assert(prev.contains(s));
                    let j = choose|j: int| 0 <= j < prev.len() && prev[j] == s;
                    assert(all[j] == s);
                } else {
                    crate::theory::limits::lemma_pair_index(c, c, s[0].0, s[0].1);
                    assert(s[0] == x);
                    let tail = s.subrange(1, s.len() as int);
                    assert forall|k: int| 0 <= k < tail.len() implies 0 <= (#[trigger] tail[k]).0 < c && 0 <= tail[k].1 < c by {
                        assert(tail[k] == s[k + 1]);
                    }
                    assert(rest.contains(tail));
                    let b = choose|b: int| 0 <= b < rest.len() && rest[b] == tail;
                    assert(s =~= last[b]);
                    assert(all[prev.len() + b] == s);
                }
            }
        }
    }
}

/// The listing is in strict dictionary order and holds every position list of
/// length at most `m` with entries below `c`.
pub proof fn law_position_lists(m: nat, c: int)
    requires
        c >= 0,
    ensures
        strictly_listed(position_lists(m, c)),
        forall|s: Seq<(int, int)>| #[trigger] position_lists(m, c).contains(s) <==> is_position_list(m as int, c, s),
    decreases m,
{
    let all = position_lists(m, c);
    let empty = Seq::<(int, int)>::empty();
    if m == 0 {
        assert(all == seq![empty]);
        assert forall|s: Seq<(int, int)>| #[trigger] all.contains(s) <==> is_position_list(m as int, c, s) by {
            if s.len() == 0 {
                assert(s =~= empty);
                assert(all[0] == s);
            }
        }
    } else {
        let rest = position_lists((m - 1) as nat, c);
        law_position_lists((m - 1) as nat, c);
        assert(c * c >= 0) by (nonlinear_arith);
        lemma_blocks(rest, m - 1, c, c * c);
        let tail = crate::theory::listing::cat(c * c, |v: int| prefixed(nth_pair(c, v), rest));
        assert(all == seq![empty] + tail);
        assert forall|i: int, j: int| 0 <= i < j < all.len() implies list_less(#[trigger] all[i], #[trigger] all[j]) by {
            assert(all[j] == tail[j - 1]);
            if i == 0 {
                assert(tail.contains(tail[j - 1]));
                assert(list_less_at(empty, all[j], 0));
            } else {
                assert(all[i] == tail[i - 1]);
            }
        }
        assert forall|s: Seq<(int, int)>| #[trigger] all.contains(s) <==> is_position_list(m as int, c, s) by {
            if all.contains(s) {
                let j = choose|j: int| 0 <= j < all.len() && all[j] == s;
                if j > 0 {
                    assert(tail[j - 1] == s);
                    assert(tail.contains(s));
                }
            }
            if is_position_list(m as int, c, s) {
                if s.len() == 0 {
                    assert(s =~= empty);
                    assert(all[0] == s);
                } else {
                    crate::theory::limits::lemma_pair_index(c, c, s[0].0, s[0].1);
                    assert(tail.contains(s));
                    let j = choose|j: int| 0 <= j < tail.len() && tail[j] == s;
                    assert(all[j + 1] == s);
                }
            }
        }
    }
}

} // verus!
